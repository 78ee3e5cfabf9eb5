use rpaheui::cli::{has_marker_anywhere, Args, Opt, Source, Target};

fn args(source: Option<Source>, cmd: Option<&str>, filename: Option<&str>) -> Args {
    Args {
        opt: Opt::O1,
        source,
        target: Some(Target::Asm),
        output: None,
        cmd: cmd.map(|s| s.to_string()),
        filename: filename.map(|s| s.to_string()),
    }
}

#[test]
fn source_extension_means_text_whatever_the_bytes() {
    let marked = [1u8, 255, 255, 255, 255, 2];
    assert_eq!(args(None, None, Some("hello.아희")).source(&marked), Source::Text);
    assert_eq!(args(None, None, Some("hello.aheui")).source(&marked), Source::Text);
    assert_eq!(args(None, None, Some("dir/x.aheuis")).source(&marked), Source::Asm);
}

#[test]
fn marker_anywhere_means_bytecode() {
    let marked = [1u8, 255, 255, 255, 255, 2];
    assert_eq!(args(None, None, Some("hello.txt")).source(&marked), Source::Bytecode);
    assert_eq!(args(None, None, Some("hello")).source(&[255, 255, 255, 1, 255]), Source::Text);
    assert_eq!(args(None, None, Some("x.aheuic")).source(b"plain"), Source::Bytecode);
    assert!(has_marker_anywhere(&[0, 0, 255, 255, 255, 255]));
    assert!(!has_marker_anywhere(&[255, 255, 255]));
}

#[test]
fn explicit_source_wins_and_no_file_name_means_text() {
    let marked = [255u8, 255, 255, 255];
    assert_eq!(args(Some(Source::Asm), None, Some("hello.aheui")).source(&marked), Source::Asm);
    assert_eq!(args(Some(Source::Bytecode), Some("x"), None).source(b"x"), Source::Bytecode);
    assert_eq!(args(None, Some("x"), None).source(&marked), Source::Text);
    assert_eq!(args(None, None, Some("아희")).source(b""), Source::Text);
    assert_eq!(args(None, None, Some(".aheui.bak")).source(b""), Source::Text);
}

#[test]
fn command_text_is_the_input() {
    assert_eq!(args(None, Some("반망희"), None).input(), Some("반망희".as_bytes().to_vec()));
    assert_eq!(args(None, None, Some("f.aheui")).input(), None);
}

//! What the command line decides: the optimization level, the form of the
//! source and the form of the output.

use vstd::prelude::*;

verus! {

/// Optimization level.
#[derive(Clone, Copy, Debug, PartialEq, Eq, Structural)]
pub enum Opt {
    O0,
    O1,
    O2,
}

/// Form of the source.
#[derive(Clone, Copy, Debug, PartialEq, Eq, Structural)]
pub enum Source {
    Bytecode,
    Asm,
    Text,
}

/// Form of the output.
#[derive(Clone, Copy, Debug, PartialEq, Eq, Structural)]
pub enum Target {
    Bytecode,
    Asm,
    AsmComment,
}

/// The arguments of one invocation.
#[derive(Debug)]
pub struct Args {
    pub opt: Opt,
    pub source: Option<Source>,
    pub target: Option<Target>,
    pub output: Option<String>,
    pub cmd: Option<String>,
    pub filename: Option<String>,
}

/// The extension of sources in Hangul script.
pub open spec fn ext_native() -> Seq<char> {
    seq!['.', '\u{C544}', '\u{D76C}']
}

/// The extension of sources under an ASCII name.
pub open spec fn ext_text() -> Seq<char> {
    seq!['.', 'a', 'h', 'e', 'u', 'i']
}

/// The extension of assembly files.
pub open spec fn ext_assembly() -> Seq<char> {
    seq!['.', 'a', 'h', 'e', 'u', 'i', 's']
}

/// The extension of bytecode files.
pub open spec fn ext_bytecode() -> Seq<char> {
    seq!['.', 'a', 'h', 'e', 'u', 'i', 'c']
}

/// Whether `s` ends with `suffix`.
pub open spec fn ends_with(s: Seq<char>, suffix: Seq<char>) -> bool {
    s.len() >= suffix.len() && s.subrange(s.len() - suffix.len(), s.len() as int) == suffix
}

/// Whether four bytes of value 255 stand at position `i`.
pub open spec fn marker_at(input: Seq<u8>, i: int) -> bool {
    0 <= i && i + 4 <= input.len() && input[i] == 255 && input[i + 1] == 255 && input[i + 2] == 255
        && input[i + 3] == 255
}

/// Whether four bytes of value 255 stand somewhere in the input.
pub open spec fn contains_marker(input: Seq<u8>) -> bool {
    exists|i: int| marker_at(input, i)
}

/// The form of the source: an explicit choice wins; without a file name
/// the source is text; then the file name's extension decides; then the
/// marker anywhere in the input makes it bytecode; otherwise it is text.
pub open spec fn select_source(
    choice: Option<Source>,
    filename: Option<Seq<char>>,
    input: Seq<u8>,
) -> Source {
    match choice {
        Some(s) => s,
        None => match filename {
            None => Source::Text,
            Some(f) => if ends_with(f, ext_native()) || ends_with(f, ext_text()) {
                Source::Text
            } else if ends_with(f, ext_assembly()) {
                Source::Asm
            } else if ends_with(f, ext_bytecode()) || contains_marker(input) {
                Source::Bytecode
            } else {
                Source::Text
            },
        },
    }
}

/// Executable form of [`ends_with`].
fn has_suffix(s: &str, suffix: &Vec<char>) -> (r: bool)
    ensures
        r == ends_with(s@, suffix@),
{
    let n = s.unicode_len();
    let k = suffix.len();
    if n < k {
        return false;
    }
    let mut i: usize = 0;
    while i < k
        invariant
            i <= k,
            k == suffix@.len(),
            n == s@.len(),
            k <= n,
            forall|j: int| 0 <= j < i ==> s@[n - k + j] == suffix@[j],
        decreases k - i,
    {
        if s.get_char(n - k + i) != suffix[i] {
            assert(s@.subrange(n - k, n as int)[i as int] != suffix@[i as int]);
            return false;
        }
        i += 1;
    }
    assert(s@.subrange(n - k, n as int) =~= suffix@);
    true
}

/// Executable form of [`contains_marker`].
pub fn has_marker_anywhere(input: &[u8]) -> (r: bool)
    ensures
        r == contains_marker(input@),
{
    if input.len() < 4 {
        return false;
    }
    let last = input.len() - 4;
    let mut i: usize = 0;
    while i <= last
        invariant
            i <= last + 1,
            last + 4 == input@.len(),
            forall|j: int| 0 <= j < i ==> !marker_at(input@, j),
        decreases last + 1 - i,
    {
        if input[i] == 255 && input[i + 1] == 255 && input[i + 2] == 255 && input[i + 3] == 255 {
            assert(marker_at(input@, i as int));
            return true;
        }
        i += 1;
    }
    false
}

impl Args {
    /// The source given on the command line itself, if any. `None` means
    /// that the source is the content of the file named by `filename`.
    pub fn input(&self) -> (r: Option<Vec<u8>>)
        ensures
            match r {
                Some(v) => self.cmd is Some && v@ == vstd::utf8::encode_utf8(self.cmd->0@),
                None => self.cmd is None,
            },
    {
        match &self.cmd {
            Some(cmd) => Some(cmd.as_str().as_bytes_vec()),
            None => None,
        }
    }

    /// The form of the source whose bytes are `input`.
    pub fn source(&self, input: &[u8]) -> (r: Source)
        ensures
            r == select_source(
                self.source,
                match self.filename {
                    Some(f) => Some(f@),
                    None => None,
                },
                input@,
            ),
    {
        if let Some(s) = self.source {
            return s;
        }
        let name = match &self.filename {
            None => {
                return Source::Text;
            },
            Some(f) => f.as_str(),
        };
        let native: Vec<char> = vec!['.', '\u{C544}', '\u{D76C}'];
        let text: Vec<char> = vec!['.', 'a', 'h', 'e', 'u', 'i'];
        let assembly: Vec<char> = vec!['.', 'a', 'h', 'e', 'u', 'i', 's'];
        let bytecode: Vec<char> = vec!['.', 'a', 'h', 'e', 'u', 'i', 'c'];
        assert(native@ =~= ext_native());
        assert(text@ =~= ext_text());
        assert(assembly@ =~= ext_assembly());
        assert(bytecode@ =~= ext_bytecode());
        if has_suffix(name, &native) || has_suffix(name, &text) {
            Source::Text
        } else if has_suffix(name, &assembly) {
            Source::Asm
        } else if has_suffix(name, &bytecode) || has_marker_anywhere(input) {
            Source::Bytecode
        } else {
            Source::Text
        }
    }
}

} // verus!

//! The fixed set of text shapes that steer tokenization.

use vstd::prelude::*;
use vstd::string::*;

use crate::engine::{
    are_successive_ranges, compile, compiles, fault_of, find_all, is_match, pieces_between,
    regex_is_match, regex_matches, split, Pattern, PatternFault,
};
use crate::text::strs;

verus! {

/// A link: `http` or `https`, `://`, and what follows up to white space.
pub const URL_SHAPE: &'static str = "https?://\\S+";

/// A file path: two or more parts of word characters, `-` and `.`, with `/`
/// between them.
pub const PATH_SHAPE: &'static str = "[\\w\\-\\.]+(/[\\w\\-\\.]+)+";

/// A number standing alone.
pub const NUMBER_SHAPE: &'static str = "\\b\\d+\\b";

/// A fragment of a regular expression: a backslash, letters, and what may
/// follow in braces and brackets.
pub const ESCAPE_SHAPE: &'static str = "\\\\[a-zA-Z]+[{[^()]+}]*";

/// A mail address.
pub const EMAIL_SHAPE: &'static str = "\\b[A-Za-z0-9._%+-]+@[A-Za-z0-9.-]+\\.[A-Za-z]{2,}\\b";

/// A candidate word: letters, then digits if any, then letters if any.
pub const WORD_SHAPE: &'static str = "[a-zA-Z]+[0-9]*[a-zA-Z]*";

/// What parts a chunk: a space, an underscore, a hyphen or an em dash.
pub const SPLIT_SHAPE: &'static str = "[ _\\-\u{2014}]";

/// The texts of the seven shapes: the five that disqualify a chunk, then
/// the word shape, then the separators.
pub open spec fn shapes() -> Seq<Seq<char>> {
    seq![
        URL_SHAPE@,
        PATH_SHAPE@,
        NUMBER_SHAPE@,
        ESCAPE_SHAPE@,
        EMAIL_SHAPE@,
        WORD_SHAPE@,
        SPLIT_SHAPE@,
    ]
}

/// Whether the engine compiles the first `k` shapes.
pub open spec fn shapes_compile(k: int) -> bool {
    forall|i: int| 0 <= i < k && i < shapes().len() ==> compiles(#[trigger] shapes()[i])
}

/// Whether `pattern` is the first of the shapes that the engine refuses.
pub open spec fn is_first_refused(pattern: Seq<char>) -> bool {
    exists|k: int|
        0 <= k < shapes().len() && pattern == #[trigger] shapes()[k] && !compiles(shapes()[k])
            && shapes_compile(k)
}

/// Whether one of the five disqualifying shapes is found in `text`.
pub open spec fn ignores(text: Seq<char>) -> bool {
    exists|i: int| 0 <= i < 5 && regex_is_match(#[trigger] shapes()[i], text)
}

/// The parts of `text` between its separators.
pub open spec fn pieces(text: Seq<char>) -> Seq<Seq<char>> {
    pieces_between(text, regex_matches(SPLIT_SHAPE@, text))
}

/// The ranges of the candidate words in `piece`.
pub open spec fn candidates(piece: Seq<char>) -> Seq<(usize, usize)> {
    regex_matches(WORD_SHAPE@, piece)
}

/// A pattern that could not be compiled, and why.
#[derive(Debug)]
pub struct PatternError {
    pattern: String,
    fault: PatternFault,
}

impl PatternError {
    /// The text of the pattern.
    pub closed spec fn spec_pattern(&self) -> Seq<char> {
        self.pattern@
    }

    /// The text of the pattern.
    pub fn pattern(&self) -> (r: &str)
        ensures
            r@ == self.spec_pattern(),
    {
        self.pattern.as_str()
    }

    /// Why it could not be compiled.
    pub closed spec fn spec_fault(&self) -> PatternFault {
        self.fault
    }

    /// Why it could not be compiled.
    pub fn fault(&self) -> (r: &PatternFault)
        ensures
            *r == self.spec_fault(),
    {
        &self.fault
    }
}

/// What becomes of an attempt to compile `pattern`: the compiled pattern
/// where there is one, else the error that names the pattern.
pub fn accept(pattern: &str, compiled: Result<Pattern, regex::Error>) -> (r: Result<
    Pattern,
    PatternError,
>)
    ensures
        match compiled {
            Ok(made) => r == Ok::<Pattern, PatternError>(made),
            Err(_) => r is Err && r->Err_0.spec_pattern() == pattern@,
        },
{
    match compiled {
        Ok(made) => Ok(made),
        Err(error) => Err(PatternError { pattern: pattern.to_owned(), fault: fault_of(error) }),
    }
}

/// Compiles one pattern.
fn compile_shape(pattern: &str) -> (r: Result<Pattern, PatternError>)
    ensures
        match r {
            Ok(made) => compiles(pattern@) && made@ == pattern@,
            Err(error) => !compiles(pattern@) && error.spec_pattern() == pattern@,
        },
{
    accept(pattern, compile(pattern))
}

/// The seven shapes, compiled: those that disqualify a chunk, the one that
/// finds candidate words, and the one that parts a chunk.
#[derive(Debug)]
pub struct PatternSet {
    ignore: Vec<Pattern>,
    word: Pattern,
    split: Pattern,
}

impl PatternSet {
    /// The set holds the seven shapes, each compiled from its text.
    #[verifier::type_invariant]
    closed spec fn holds_the_shapes(&self) -> bool {
        &&& self.ignore@.len() == 5
        &&& forall|i: int| 0 <= i < 5 ==> (#[trigger] self.ignore@[i])@ == shapes()[i]
        &&& self.word@ == shapes()[5]
        &&& self.split@ == shapes()[6]
    }

    /// Compiles the seven shapes in their order and stops at the first
    /// that the engine refuses.
    pub fn new() -> (r: Result<Self, PatternError>)
        ensures
            r is Ok <==> shapes_compile(7),
            r matches Err(error) ==> is_first_refused(error.spec_pattern()),
    {
        let url = match compile_shape(URL_SHAPE) {
            Ok(made) => made,
            Err(error) => {
                assert(shapes()[0] == URL_SHAPE@ && shapes_compile(0));
                return Err(error);
            },
        };
        let path = match compile_shape(PATH_SHAPE) {
            Ok(made) => made,
            Err(error) => {
                assert(shapes()[1] == PATH_SHAPE@ && shapes_compile(1));
                return Err(error);
            },
        };
        let number = match compile_shape(NUMBER_SHAPE) {
            Ok(made) => made,
            Err(error) => {
                assert(shapes()[2] == NUMBER_SHAPE@ && shapes_compile(2));
                return Err(error);
            },
        };
        let escape = match compile_shape(ESCAPE_SHAPE) {
            Ok(made) => made,
            Err(error) => {
                assert(shapes()[3] == ESCAPE_SHAPE@ && shapes_compile(3));
                return Err(error);
            },
        };
        let email = match compile_shape(EMAIL_SHAPE) {
            Ok(made) => made,
            Err(error) => {
                assert(shapes()[4] == EMAIL_SHAPE@ && shapes_compile(4));
                return Err(error);
            },
        };
        let word = match compile_shape(WORD_SHAPE) {
            Ok(made) => made,
            Err(error) => {
                assert(shapes()[5] == WORD_SHAPE@ && shapes_compile(5));
                return Err(error);
            },
        };
        let split = match compile_shape(SPLIT_SHAPE) {
            Ok(made) => made,
            Err(error) => {
                assert(shapes()[6] == SPLIT_SHAPE@ && shapes_compile(6));
                return Err(error);
            },
        };
        let mut ignore: Vec<Pattern> = Vec::new();
        ignore.push(url);
        ignore.push(path);
        ignore.push(number);
        ignore.push(escape);
        ignore.push(email);
        assert(shapes_compile(7));
        Ok(PatternSet { ignore, word, split })
    }

    /// Whether one of the disqualifying shapes is found in `text`.
    pub fn is_ignored(&self, text: &str) -> (b: bool)
        ensures
            b == ignores(text@),
    {
        proof {
            use_type_invariant(self);
        }
        let mut i: usize = 0;
        while i < self.ignore.len()
            invariant
                i <= self.ignore@.len() == 5,
                forall|k: int| 0 <= k < 5 ==> (#[trigger] self.ignore@[k])@ == shapes()[k],
                forall|k: int| 0 <= k < i ==> !regex_is_match(#[trigger] shapes()[k], text@),
            decreases self.ignore@.len() - i,
        {
            if is_match(&self.ignore[i], text) {
                assert(regex_is_match(shapes()[i as int], text@));
                return true;
            }
            i += 1;
        }
        false
    }

    /// The parts of `text` between its separators.
    pub fn split_chunk<'a>(&self, text: &'a str) -> (r: Vec<&'a str>)
        ensures
            strs(r@) == pieces(text@),
    {
        proof {
            use_type_invariant(self);
        }
        split(&self.split, text)
    }

    /// The ranges of the candidate words in `piece`, in order.
    pub fn find_candidates(&self, piece: &str) -> (r: Vec<(usize, usize)>)
        ensures
            r@ == candidates(piece@),
            are_successive_ranges(piece@, r@),
    {
        proof {
            use_type_invariant(self);
        }
        find_all(&self.word, piece)
    }
}

} // verus!

//! The prefix matcher: recognises `INSERT INTO `table` VALUES` followed by
//! ` (`, and reports where the prefix ends.

use vstd::prelude::*;

verus! {

#[verifier::external_type_specification]
#[verifier::external_body]
pub struct ExRegex(onig::Regex);

#[verifier::external_type_specification]
#[verifier::external_body]
pub struct ExOnigError(onig::Error);

/// The pattern of a splittable statement's prefix; the lookahead asks for
/// ` (` after `VALUES` without taking it into the match.
pub const PREFIX_PATTERN: &'static str = "^INSERT INTO `[a-z0-9_]+` VALUES(?= \\()";

/// `INSERT INTO `, the text that marks a line as an insert statement.
pub open spec fn insert_keyword() -> Seq<char> {
    seq!['I', 'N', 'S', 'E', 'R', 'T', ' ', 'I', 'N', 'T', 'O', ' ']
}

/// ` VALUES`, the text between the table's closing backtick and the list.
pub open spec fn values_keyword() -> Seq<char> {
    seq![' ', 'V', 'A', 'L', 'U', 'E', 'S']
}

/// Whether the line begins with `INSERT INTO `.
pub open spec fn starts_with_insert(line: Seq<char>) -> bool {
    line.len() >= 12 && line.subrange(0, 12) == insert_keyword()
}

/// A character that may stand in a table name.
pub open spec fn is_ident_char(c: char) -> bool {
    ('a' <= c && c <= 'z') || ('0' <= c && c <= '9') || c == '_'
}

/// Whether the line begins with `INSERT INTO `name` VALUES (` where the
/// table name has `n` characters.
pub open spec fn prefix_shape(line: Seq<char>, n: int) -> bool {
    &&& n >= 1
    &&& line.len() >= 23 + n
    &&& starts_with_insert(line)
    &&& line[12] == '`'
    &&& forall|k: int| 13 <= k < 13 + n ==> is_ident_char(#[trigger] line[k])
    &&& line[13 + n] == '`'
    &&& line.subrange(14 + n, 21 + n) == values_keyword()
    &&& line[21 + n] == ' '
    &&& line[22 + n] == '('
}

/// Where the prefix ends (just after `VALUES`) for a table name of `n` characters.
pub open spec fn prefix_end(n: int) -> int {
    21 + n
}

/// The name length of a line of prefix shape is unique: it stops at the
/// first backtick after the opening one.
pub proof fn lemma_prefix_shape_unique(line: Seq<char>, n: int, m: int)
    requires
        prefix_shape(line, n),
        prefix_shape(line, m),
    ensures
        n == m,
{
    if n < m {
        assert(is_ident_char(line[13 + n]));
    } else if m < n {
        assert(is_ident_char(line[13 + m]));
    }
}

/// A compiled recogniser of statement prefixes.
pub struct PrefixMatcher {
    re: onig::Regex,
}

/// Why a matcher could not be built.
#[derive(PartialEq, Eq, Structural, Clone, Copy, Debug)]
pub enum MatcherError {
    /// The regular expression engine refused the pattern.
    BadPattern,
}

/// Relies on onig::Regex::new, which compiles a pattern or reports a syntax
/// error. PREFIX_PATTERN is valid Oniguruma syntax (an anchor, a literal, a
/// character class and a lookahead), and compiling depends on the pattern
/// alone, so it compiles.
#[verifier::external_body]
fn compile_prefix_pattern() -> (r: Result<onig::Regex, onig::Error>)
    ensures
        r is Ok,
{
    onig::Regex::new(PREFIX_PATTERN)
}

impl PrefixMatcher {
    /// Compiles the prefix pattern once, for all the lines to come.
    pub fn new() -> (r: Result<PrefixMatcher, MatcherError>)
        ensures
            r is Ok,
    {
        match compile_prefix_pattern() {
            Ok(re) => Ok(PrefixMatcher { re }),
            Err(_) => Err(MatcherError::BadPattern),
        }
    }

    /// Relies on onig::Regex::find, which gives the byte offsets of the
    /// leftmost match. The regex was compiled from PREFIX_PATTERN by
    /// `compile_prefix_pattern`, as `new` is the only way to build a
    /// matcher. A match at offset 0 is exactly a line of `prefix_shape`, and
    /// that prefix is ASCII, so its byte offsets are its character offsets.
    /// The name class before the backtick needs no backtracking, so the
    /// search never reaches the engine's limits, on which `find` panics.
    #[verifier::external_body]
    fn find(&self, line: &str) -> (r: Option<(usize, usize)>)
        ensures
            forall|n: int| #[trigger]
                prefix_shape(line@, n) ==> r == Some((0usize, prefix_end(n) as usize)),
            r matches Some((a, b)) ==> (a == 0 ==> b >= 22 && prefix_shape(line@, b - 21)),
    {
        self.re.find(line)
    }

    /// Returns where the prefix of a splittable statement ends (just after
    /// `VALUES`), or `None` where the line has no such prefix.
    pub fn prefix_len(&self, line: &str) -> (r: Option<usize>)
        ensures
            forall|n: int| #[trigger] prefix_shape(line@, n) ==> r == Some(prefix_end(n) as usize),
            r is None <==> forall|n: int| !#[trigger] prefix_shape(line@, n),
    {
        match self.find(line) {
            Some((a, b)) => {
                if a == 0 {
                    assert(prefix_shape(line@, b - 21));
                    Some(b)
                } else {
                    None
                }
            },
            None => None,
        }
    }
}

/// Whether the characters begin with `INSERT INTO `.
pub fn has_insert_keyword(cs: &[char]) -> (r: bool)
    ensures
        r == starts_with_insert(cs@),
{
    if cs.len() < 12 {
        return false;
    }
    let r = cs[0] == 'I' && cs[1] == 'N' && cs[2] == 'S' && cs[3] == 'E' && cs[4] == 'R'
        && cs[5] == 'T' && cs[6] == ' ' && cs[7] == 'I' && cs[8] == 'N' && cs[9] == 'T'
        && cs[10] == 'O' && cs[11] == ' ';
    if r {
        assert(cs@.subrange(0, 12) =~= insert_keyword());
    } else {
        assert(cs@.subrange(0, 12) != insert_keyword()) by {
            if cs@.subrange(0, 12) == insert_keyword() {
                assert(cs@.subrange(0, 12)[0] == cs@[0]);
                assert(cs@.subrange(0, 12)[1] == cs@[1]);
                assert(cs@.subrange(0, 12)[2] == cs@[2]);
                assert(cs@.subrange(0, 12)[3] == cs@[3]);
                assert(cs@.subrange(0, 12)[4] == cs@[4]);
                assert(cs@.subrange(0, 12)[5] == cs@[5]);
                assert(cs@.subrange(0, 12)[6] == cs@[6]);
                assert(cs@.subrange(0, 12)[7] == cs@[7]);
                assert(cs@.subrange(0, 12)[8] == cs@[8]);
                assert(cs@.subrange(0, 12)[9] == cs@[9]);
                assert(cs@.subrange(0, 12)[10] == cs@[10]);
                assert(cs@.subrange(0, 12)[11] == cs@[11]);
            }
        }
    }
    r
}

} // verus!

//! A small text-reversal library.
//!
//! The library reverses the characters of a text, either over the whole
//! content as one unit or independently per line, and carries the plain
//! data of one command-line invocation together with the errors that the
//! surrounding I/O can report.

use vstd::prelude::*;
use vstd::string::StrSliceExecFns;
use vstd::string::StringExecFns;

verus! {

/// The character sequence `s` in reverse order.
pub open spec fn rev_of(s: Seq<char>) -> Seq<char> {
    Seq::new(s.len(), |j: int| s[s.len() - 1 - j])
}

/// Reversing a sequence keeps its length.
///
/// The length of the reversed text equals the length of the text,
/// measured in characters.
pub proof fn lemma_rev_len(s: Seq<char>)
    ensures
        rev_of(s).len() == s.len(),
{
}

/// Reversal is an involution: reversing twice gives the text back.
pub proof fn lemma_rev_involution(s: Seq<char>)
    ensures
        rev_of(rev_of(s)) == s,
{
    assert(rev_of(rev_of(s)) =~= s);
}

/// Splits `s` at every newline character. The empty text splits into one
/// empty segment, and every newline separates two segments, so the result
/// always holds at least one segment and none of them contains a newline.
pub open spec fn split_lines(s: Seq<char>) -> Seq<Seq<char>>
    decreases s.len(),
{
    if s.len() == 0 {
        seq![Seq::<char>::empty()]
    } else if s[0] == '\n' {
        seq![Seq::<char>::empty()] + split_lines(s.drop_first())
    } else {
        let rest = split_lines(s.drop_first());
        seq![seq![s[0]] + rest[0]] + rest.drop_first()
    }
}

/// Joins the segments with a single newline character between them.
pub open spec fn join_lines(ls: Seq<Seq<char>>) -> Seq<char>
    decreases ls.len(),
{
    if ls.len() == 0 {
        Seq::<char>::empty()
    } else if ls.len() == 1 {
        ls[0]
    } else {
        ls[0] + seq!['\n'] + join_lines(ls.drop_first())
    }
}

/// The lines of a text: empty text has no lines, and one trailing newline
/// does not open a final empty line; otherwise the lines are the segments
/// between newlines.
pub open spec fn lines_of(s: Seq<char>) -> Seq<Seq<char>> {
    if s.len() == 0 {
        Seq::<Seq<char>>::empty()
    } else if s[s.len() - 1] == '\n' {
        split_lines(s.drop_last())
    } else {
        split_lines(s)
    }
}

/// The text with each of its lines reversed in place: the lines in their
/// original order, each internally reversed, rejoined with newlines.
pub open spec fn rev_lines_of(s: Seq<char>) -> Seq<char> {
    join_lines(lines_of(s).map_values(|l: Seq<char>| rev_of(l)))
}

/// Splitting yields at least one segment, and no segment contains a newline.
pub proof fn lemma_split_lines_shape(s: Seq<char>)
    ensures
        split_lines(s).len() >= 1,
        forall|k: int|
            0 <= k < split_lines(s).len() ==> !(#[trigger] split_lines(s)[k]).contains('\n'),
    decreases s.len(),
{
    if s.len() == 0 {
        assert(!split_lines(s)[0].contains('\n'));
    } else {
        lemma_split_lines_shape(s.drop_first());
        let rest = split_lines(s.drop_first());
        if s[0] == '\n' {
            assert(!split_lines(s)[0].contains('\n'));
        } else {
            assert(!(seq![s[0]] + rest[0]).contains('\n')) by {
                assert(forall|j: int|
                    0 <= j < (seq![s[0]] + rest[0]).len() ==> (seq![s[0]] + rest[0])[j]
                        != '\n');
            }
        }
    }
}

/// Appending a character extends the last segment of the split when it is
/// not a newline, and opens a new empty segment when it is.
proof fn lemma_split_lines_snoc(s: Seq<char>, c: char)
    ensures
        c != '\n' ==> split_lines(s.push(c)) == split_lines(s).update(
            split_lines(s).len() - 1,
            split_lines(s).last().push(c),
        ),
        c == '\n' ==> split_lines(s.push(c)) == split_lines(s).push(Seq::<char>::empty()),
    decreases s.len(),
{
    reveal_with_fuel(split_lines, 3);
    lemma_split_lines_shape(s);
    if s.len() == 0 {
        assert(s.push(c).drop_first() =~= Seq::<char>::empty());
        if c == '\n' {
            assert(s.push(c)[0] == '\n');
            assert(split_lines(s.push(c)) =~~= split_lines(s).push(Seq::<char>::empty()));
        } else {
            assert(s.push(c)[0] == c);
            assert(split_lines(s.push(c)) =~~= split_lines(s).update(
                split_lines(s).len() - 1,
                split_lines(s).last().push(c),
            ));
        }
    } else {
        lemma_split_lines_snoc(s.drop_first(), c);
        lemma_split_lines_shape(s.drop_first());
        assert(s.push(c)[0] == s[0]);
        assert(s.push(c).drop_first() =~= s.drop_first().push(c));
        let rest = split_lines(s.drop_first());
        let rest2 = split_lines(s.drop_first().push(c));
        if c == '\n' {
            assert(rest2 == rest.push(Seq::<char>::empty()));
            if s[0] == '\n' {
                assert(split_lines(s.push(c)) =~~= split_lines(s).push(Seq::<char>::empty()));
            } else {
                assert(rest2[0] == rest[0]);
                assert(rest2.drop_first() =~~= rest.drop_first().push(Seq::<char>::empty()));
                assert(split_lines(s.push(c)) =~~= split_lines(s).push(Seq::<char>::empty()));
            }
        } else {
            assert(rest2 == rest.update(rest.len() - 1, rest.last().push(c)));
            if s[0] == '\n' {
                assert(split_lines(s.push(c)) =~~= split_lines(s).update(
                    split_lines(s).len() - 1,
                    split_lines(s).last().push(c),
                ));
            } else {
                if rest.len() == 1 {
                    assert(rest2[0] == rest[0].push(c));
                    assert(rest2.drop_first() =~~= rest.drop_first());
                    assert(split_lines(s.push(c)) =~~= split_lines(s).update(
                        split_lines(s).len() - 1,
                        split_lines(s).last().push(c),
                    ));
                } else {
                    assert(rest2[0] == rest[0]);
                    assert(rest2.drop_first() =~~= rest.drop_first().update(
                        rest.len() - 2,
                        rest.last().push(c),
                    ));
                    assert(split_lines(s.push(c)) =~~= split_lines(s).update(
                        split_lines(s).len() - 1,
                        split_lines(s).last().push(c),
                    ));
                }
            }
        }
    }
}

/// Appending a segment to a non-empty list of segments joins through one
/// more newline.
proof fn lemma_join_lines_snoc(ls: Seq<Seq<char>>, x: Seq<char>)
    ensures
        ls.len() == 0 ==> join_lines(ls.push(x)) == x,
        ls.len() > 0 ==> join_lines(ls.push(x)) == join_lines(ls) + seq!['\n'] + x,
    decreases ls.len(),
{
    reveal_with_fuel(join_lines, 3);
    if ls.len() == 0 {
        assert(join_lines(ls.push(x)) == ls.push(x)[0]);
        assert(ls.push(x)[0] == x);
    } else if ls.len() == 1 {
        assert(ls.push(x)[0] == ls[0]);
        assert(ls.push(x).drop_first() =~~= seq![x]);
        assert(join_lines(seq![x]) == x);
        assert(join_lines(ls.push(x)) == ls[0] + seq!['\n'] + x);
        assert(join_lines(ls) == ls[0]);
    } else {
        lemma_join_lines_snoc(ls.drop_first(), x);
        assert(ls.push(x).drop_first() =~= ls.drop_first().push(x));
        assert(join_lines(ls.push(x)) == ls[0] + seq!['\n'] + join_lines(ls.drop_first().push(x)));
        assert(ls[0] + seq!['\n'] + (join_lines(ls.drop_first()) + seq!['\n'] + x) =~= (ls[0]
            + seq!['\n'] + join_lines(ls.drop_first())) + seq!['\n'] + x);
    }
}

/// A text without newlines splits into itself as the only segment.
proof fn lemma_split_lines_single(t: Seq<char>)
    requires
        !t.contains('\n'),
    ensures
        split_lines(t) == seq![t],
    decreases t.len(),
{
    reveal_with_fuel(split_lines, 2);
    if t.len() == 0 {
        assert(split_lines(t) =~~= seq![t]);
    } else {
        assert(t[0] != '\n');
        assert(!t.drop_first().contains('\n')) by {
            assert(forall|j: int|
                0 <= j < t.drop_first().len() ==> t.drop_first()[j] == t[j + 1]);
        }
        lemma_split_lines_single(t.drop_first());
        assert(split_lines(t) =~~= seq![t]);
    }
}

/// Splitting a newline-free prefix, a newline, and a tail yields the prefix
/// as the first segment, followed by the split of the tail.
proof fn lemma_split_lines_concat(a: Seq<char>, b: Seq<char>)
    requires
        !a.contains('\n'),
    ensures
        split_lines(a + seq!['\n'] + b) == seq![a] + split_lines(b),
    decreases a.len(),
{
    lemma_split_lines_shape(b);
    let s = a + seq!['\n'] + b;
    if a.len() == 0 {
        assert(s[0] == '\n');
        assert(s.drop_first() =~= b);
        assert(split_lines(s) =~~= seq![a] + split_lines(b));
    } else {
        assert(s[0] == a[0]);
        assert(a[0] != '\n');
        assert(!a.drop_first().contains('\n')) by {
            assert(forall|j: int|
                0 <= j < a.drop_first().len() ==> a.drop_first()[j] == a[j + 1]);
        }
        assert(s.drop_first() =~= a.drop_first() + seq!['\n'] + b);
        lemma_split_lines_concat(a.drop_first(), b);
        let rest = split_lines(s.drop_first());
        assert(rest[0] == a.drop_first());
        assert(seq![a[0]] + a.drop_first() =~= a);
        assert(rest.drop_first() =~~= split_lines(b));
        assert(split_lines(s) =~~= seq![a] + split_lines(b));
    }
}

/// Splitting undoes joining: a non-empty list of newline-free segments,
/// joined with newlines and split again, comes back unchanged.
pub proof fn lemma_split_join_lines(ls: Seq<Seq<char>>)
    requires
        ls.len() >= 1,
        forall|k: int| 0 <= k < ls.len() ==> !(#[trigger] ls[k]).contains('\n'),
    ensures
        split_lines(join_lines(ls)) == ls,
    decreases ls.len(),
{
    if ls.len() == 1 {
        lemma_split_lines_single(ls[0]);
        assert(split_lines(join_lines(ls)) =~~= ls);
    } else {
        assert(forall|k: int|
            0 <= k < ls.drop_first().len() ==> ls.drop_first()[k] == ls[k + 1]);
        lemma_split_join_lines(ls.drop_first());
        lemma_split_lines_concat(ls[0], join_lines(ls.drop_first()));
        assert(split_lines(join_lines(ls)) =~~= ls);
    }
}

/// When the last segment is non-empty, the join is non-empty and ends with
/// the last segment's last character.
proof fn lemma_join_lines_last(ls: Seq<Seq<char>>)
    requires
        ls.len() >= 1,
        ls.last().len() > 0,
    ensures
        join_lines(ls).len() > 0,
        join_lines(ls).last() == ls.last().last(),
    decreases ls.len(),
{
    if ls.len() == 1 {
    } else {
        lemma_join_lines_last(ls.drop_first());
        assert(ls.drop_first().last() == ls.last());
        let j = join_lines(ls.drop_first());
        assert(join_lines(ls) == ls[0] + seq!['\n'] + j);
        assert((ls[0] + seq!['\n'] + j).last() == j.last());
    }
}

/// A text that does not end with a newline splits with a non-empty last
/// segment.
proof fn lemma_split_last_nonempty(s: Seq<char>)
    requires
        s.len() > 0,
        s.last() != '\n',
    ensures
        split_lines(s).last().len() > 0,
    decreases s.len(),
{
    reveal_with_fuel(split_lines, 2);
    lemma_split_lines_shape(s.drop_first());
    if s.len() == 1 {
        assert(s[0] != '\n');
        assert(split_lines(s).last() == seq![s[0]] + split_lines(s.drop_first())[0]);
    } else {
        assert(s.drop_first().last() == s.last());
        lemma_split_last_nonempty(s.drop_first());
        let rest = split_lines(s.drop_first());
        if s[0] == '\n' {
            assert(split_lines(s).last() == rest.last());
        } else {
            if rest.len() == 1 {
                assert(split_lines(s).last() == seq![s[0]] + rest[0]);
            } else {
                assert(split_lines(s).last() == rest.drop_first().last());
                assert(rest.drop_first().last() == rest.last());
            }
        }
    }
}

/// Reversal keeps a line free of newlines.
proof fn lemma_rev_no_newline(l: Seq<char>)
    requires
        !l.contains('\n'),
    ensures
        !rev_of(l).contains('\n'),
{
    assert forall|i: int| 0 <= i < rev_of(l).len() implies rev_of(l)[i] != '\n' by {
        assert(rev_of(l)[i] == l[l.len() - 1 - i]);
    }
}

/// Line-by-line reversal preserves the number and the order of the lines:
/// for a text that does not end in a newline, the result has exactly as
/// many lines, and each is the reversal of the line in its place.
pub proof fn lemma_line_count_preserved(s: Seq<char>)
    requires
        s.len() == 0 || s[s.len() - 1] != '\n',
    ensures
        lines_of(rev_lines_of(s)).len() == lines_of(s).len(),
        forall|i: int|
            0 <= i < lines_of(s).len() ==> #[trigger] lines_of(rev_lines_of(s))[i] == rev_of(
                lines_of(s)[i],
            ),
{
    let mapped = lines_of(s).map_values(|l: Seq<char>| rev_of(l));
    if s.len() == 0 {
        assert(mapped =~~= Seq::<Seq<char>>::empty());
        assert(rev_lines_of(s) == join_lines(mapped));
        assert(join_lines(Seq::<Seq<char>>::empty()) == Seq::<char>::empty());
    } else {
        lemma_split_lines_shape(s);
        lemma_split_last_nonempty(s);
        assert(lines_of(s) == split_lines(s));
        assert forall|k: int| 0 <= k < mapped.len() implies !(#[trigger] mapped[k]).contains(
            '\n',
        ) by {
            lemma_rev_no_newline(lines_of(s)[k]);
        }
        assert(mapped.last() == rev_of(lines_of(s).last()));
        assert(mapped.last().len() > 0);
        lemma_join_lines_last(mapped);
        lemma_split_join_lines(mapped);
        let out = rev_lines_of(s);
        assert(out.last() == mapped.last().last());
        assert(out.last() != '\n') by {
            assert(!mapped.last().contains('\n'));
            assert(mapped.last()[mapped.last().len() - 1] == mapped.last().last());
        }
        assert(lines_of(out) == split_lines(out));
        assert(lines_of(out) == mapped);
    }
}

/// Reverses the provided string, character by character.
pub fn encode(s: &str) -> (r: String)
    ensures
        r@ == rev_of(s@),
{
    let n = s.unicode_len();
    let mut r = String::new();
    let mut i = n;
    while i > 0
        invariant
            n == s@.len(),
            i <= n,
            r@ == rev_of(s@).take(n - i),
        decreases i,
    {
        i = i - 1;
        let c = s.substring_char(i, i + 1);
        r.append(c);
        assert(r@ =~= rev_of(s@).take(n - i));
    }
    assert(r@ =~= rev_of(s@));
    r
}

/// Reverses a string directly; a convenience wrapper around `encode`.
pub fn encode_string(s: &str) -> (r: String)
    ensures
        r@ == rev_of(s@),
{
    encode(s)
}

/// Splits a string into its lines, as `lines_of` describes them: one
/// trailing newline opens no final empty line.
fn lines_vec(s: &str) -> (v: Vec<String>)
    ensures
        v.deep_view() == lines_of(s@),
{
    let n = s.unicode_len();
    let mut v: Vec<String> = Vec::new();
    if n == 0 {
        assert(v.deep_view() =~~= lines_of(s@));
        return v;
    }
    let m = if s.get_char(n - 1) == '\n' {
        n - 1
    } else {
        n
    };
    let mut cur = String::new();
    let mut i: usize = 0;
    proof {
        reveal_with_fuel(split_lines, 1);
        assert(s@.subrange(0, 0) =~= Seq::<char>::empty());
        assert(v.deep_view().push(cur@) =~~= split_lines(s@.subrange(0, 0)));
    }
    while i < m
        invariant
            n == s@.len(),
            n > 0,
            m <= n,
            i <= m,
            if s@[n - 1] == '\n' {
                m == n - 1
            } else {
                m == n
            },
            v.deep_view().push(cur@) == split_lines(s@.subrange(0, i as int)),
        decreases m - i,
    {
        let ghost prefix = s@.subrange(0, i as int);
        let ghost old_v = v.deep_view();
        let ghost old_cur = cur@;
        proof {
            lemma_split_lines_snoc(prefix, s@[i as int]);
            assert(s@.subrange(0, i + 1) =~= prefix.push(s@[i as int]));
        }
        let c = s.get_char(i);
        if c == '\n' {
            v.push(cur);
            cur = String::new();
            proof {
                assert(v.deep_view() =~~= old_v.push(old_cur));
                assert(v.deep_view().push(cur@) =~~= split_lines(prefix).push(
                    Seq::<char>::empty(),
                ));
            }
        } else {
            let piece = s.substring_char(i, i + 1);
            cur.append(piece);
            proof {
                assert(cur@ =~= old_cur.push(s@[i as int]));
                assert(split_lines(prefix).last() == old_cur);
                assert(v.deep_view().push(cur@) =~~= split_lines(prefix).update(
                    split_lines(prefix).len() - 1,
                    old_cur.push(s@[i as int]),
                ));
            }
        }
        i = i + 1;
    }
    let ghost old_v = v.deep_view();
    let ghost last_cur = cur@;
    v.push(cur);
    proof {
        assert(v.deep_view() =~~= old_v.push(last_cur));
        if s@[n - 1] == '\n' {
            assert(s@.subrange(0, m as int) =~= s@.drop_last());
        } else {
            assert(s@.subrange(0, m as int) =~= s@);
        }
    }
    v
}

/// Reverses each line of `s` independently, keeping the lines in their
/// order, and rejoins them with single newlines.
pub fn reverse_lines(s: &str) -> (r: String)
    ensures
        r@ == rev_lines_of(s@),
{
    let lines = lines_vec(s);
    let ghost mapped = lines_of(s@).map_values(|l: Seq<char>| rev_of(l));
    let mut out = String::new();
    let mut j: usize = 0;
    proof {
        reveal_with_fuel(join_lines, 1);
        assert(mapped.take(0) =~~= Seq::<Seq<char>>::empty());
    }
    while j < lines.len()
        invariant
            lines.deep_view() == lines_of(s@),
            mapped == lines_of(s@).map_values(|l: Seq<char>| rev_of(l)),
            j <= lines.len(),
            out@ == join_lines(mapped.take(j as int)),
        decreases lines.len() - j,
    {
        proof {
            lemma_join_lines_snoc(mapped.take(j as int), mapped[j as int]);
            assert(mapped.take(j + 1) =~~= mapped.take(j as int).push(mapped[j as int]));
        }
        if j > 0 {
            proof {
                reveal_strlit("\n");
                assert("\n"@ =~= seq!['\n']);
            }
            out.append("\n");
        }
        let rev = encode(lines[j].as_str());
        proof {
            assert(lines[j as int]@ == lines.deep_view()[j as int]);
            assert(rev@ == mapped[j as int]);
        }
        out.append(rev.as_str());
        j = j + 1;
    }
    proof {
        assert(mapped.take(lines.len() as int) =~~= mapped);
    }
    out
}

/// Reverses the resolved content: per line when `line_by_line` is set, and
/// over the whole content as one unit otherwise.
pub fn encode_content(content: &str, line_by_line: bool) -> (r: String)
    ensures
        line_by_line ==> r@ == rev_lines_of(content@),
        !line_by_line ==> r@ == rev_of(content@),
{
    if line_by_line {
        reverse_lines(content)
    } else {
        encode(content)
    }
}

/// The resolved parameters of one run: the input text or file path, whether
/// the input names a file, an optional output file path, and whether the
/// reversal is applied per line rather than over the whole content.
#[derive(Debug)]
pub struct Cli {
    /// The input text, or the path of the input file when `file` is set.
    pub input: String,
    /// Whether `input` names a file to read rather than the text itself.
    pub file: bool,
    /// The path of the output file; the result is printed when absent.
    pub output: Option<String>,
    /// Whether each line is reversed independently instead of the whole
    /// content as one unit.
    pub line_by_line: bool,
}

/// The failures a run can report; every one is fatal for its invocation.
#[derive(Clone, Copy, Debug, PartialEq, Eq, Structural)]
pub enum FileError {
    /// The input file does not exist or cannot be opened for reading.
    NotFound,
    /// The input file's bytes are not valid text.
    NotUtf8,
    /// The output destination cannot be created or written.
    WriteFailed,
}

impl FileError {
    /// A human-readable description of the failure, for the error report.
    pub fn message(&self) -> (m: String)
        ensures
            *self is NotFound ==> m@ == "input file not found or unreadable"@,
            *self is NotUtf8 ==> m@ == "input file is not valid UTF-8 text"@,
            *self is WriteFailed ==> m@ == "output file cannot be written"@,
            m@.len() > 0,
    {
        let m = match self {
            FileError::NotFound => String::from_str("input file not found or unreadable"),
            FileError::NotUtf8 => String::from_str("input file is not valid UTF-8 text"),
            FileError::WriteFailed => String::from_str("output file cannot be written"),
        };
        proof {
            reveal_strlit("input file not found or unreadable");
            reveal_strlit("input file is not valid UTF-8 text");
            reveal_strlit("output file cannot be written");
        }
        m
    }
}

/// The text one invocation produces from its resolved content: reversed
/// per line exactly when requested, and over the whole content as one unit
/// otherwise, whatever the input source was.
pub open spec fn output_text_of(cli: Cli, content: Seq<char>) -> Seq<char> {
    if cli.line_by_line {
        rev_lines_of(content)
    } else {
        rev_of(content)
    }
}

/// Transforms the resolved content of one invocation. `content` is the text
/// the input resolved to: the contents of the input file when `cli.file` is
/// set, and the literal input text otherwise. The per-line flag governs the
/// transform alone; the input source plays no part in it.
pub fn process_content(cli: &Cli, content: &str) -> (r: String)
    ensures
        r@ == output_text_of(*cli, content@),
{
    encode_content(content, cli.line_by_line)
}

/// Whether the result of one invocation goes to standard output: it does
/// exactly when no output file path was given.
pub fn prints_to_stdout(cli: &Cli) -> (r: bool)
    ensures
        r == (cli.output is None),
{
    match &cli.output {
        Option::None => true,
        Option::Some(_) => false,
    }
}

} // verus!

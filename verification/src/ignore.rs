use vstd::prelude::*;

use crate::error::GustError;
use crate::paths::{spec_path_join, spec_path_starts_with, AbsolutePath, RootPath};
use crate::strutil::{is_suffix, str_eq, str_ends_with, str_suffix_from};

verus! {

/// One rule of the ignore file, as evaluated top to bottom with the first
/// match winning: a fixed absolute path (exact match; a path inside such a
/// directory is an error, not silently ignored), or a path suffix pattern.
#[derive(Debug)]
pub enum IgnoredFile {
    Fixed(AbsolutePath),
    Prefixed(String),
}

pub enum IgnoredFileView {
    Fixed(Seq<char>),
    Prefixed(Seq<char>),
}

impl View for IgnoredFile {
    type V = IgnoredFileView;

    open spec fn view(&self) -> IgnoredFileView {
        match self {
            IgnoredFile::Fixed(p) => IgnoredFileView::Fixed(p@),
            IgnoredFile::Prefixed(s) => IgnoredFileView::Prefixed(s@),
        }
    }
}

pub open spec fn rules_view(rules: Seq<IgnoredFile>) -> Seq<IgnoredFileView> {
    rules.map(|i: int, f: IgnoredFile| f@)
}

/// The text that a sequence of lines denotes: the lines joined by a line
/// break.
pub open spec fn join_lines(ls: Seq<Seq<char>>) -> Seq<char>
    decreases ls.len(),
{
    if ls.len() == 0 {
        Seq::empty()
    } else if ls.len() == 1 {
        ls[0]
    } else {
        ls[0] + "\n"@ + join_lines(ls.drop_first())
    }
}

/// The lines of a text: the segments between line breaks, in order. A text
/// without a break is one line; every break ends a line.
pub open spec fn spec_lines(s: Seq<char>) -> Seq<Seq<char>>
    decreases s.len(),
{
    if s.len() == 0 {
        seq![Seq::<char>::empty()]
    } else if s[0] == '\n' {
        seq![Seq::<char>::empty()] + spec_lines(s.drop_first())
    } else {
        let rest = spec_lines(s.drop_first());
        seq![seq![s[0]] + rest[0]] + rest.drop_first()
    }
}

proof fn lemma_spec_lines_len(s: Seq<char>)
    ensures
        spec_lines(s).len() >= 1,
    decreases s.len(),
{
    if s.len() == 0 {
    } else {
        lemma_spec_lines_len(s.drop_first());
    }
}

/// A text without a line break is a single line.
proof fn lemma_spec_lines_no_newline(s: Seq<char>)
    requires
        !s.contains('\n'),
    ensures
        spec_lines(s) =~= seq![s],
    decreases s.len(),
{
    reveal_strlit("\n");
    if s.len() == 0 {
        assert(s =~= Seq::<char>::empty());
    } else {
        assert(s[0] != '\n');
        assert(!s.drop_first().contains('\n')) by {
            if s.drop_first().contains('\n') {
                let i = choose|i: int|
                    0 <= i < s.drop_first().len() && s.drop_first()[i] == '\n';
                assert(s[i + 1] == '\n');
            }
        }
        lemma_spec_lines_no_newline(s.drop_first());
        assert(spec_lines(s) =~= seq![seq![s[0]] + s.drop_first()]);
        assert(seq![s[0]] + s.drop_first() =~= s);
    }
}

/// Splitting a break-free line, a break, and a remainder yields the line and
/// then the remainder's lines.
proof fn lemma_spec_lines_split(a: Seq<char>, t: Seq<char>)
    requires
        !a.contains('\n'),
    ensures
        spec_lines(a + "\n"@ + t) =~= seq![a] + spec_lines(t),
    decreases a.len(),
{
    reveal_strlit("\n");
    let s = a + "\n"@ + t;
    lemma_spec_lines_len(t);
    if a.len() == 0 {
        assert(a =~= Seq::<char>::empty());
        assert(s[0] == '\n');
        assert(s.drop_first() =~= t);
    } else {
        assert(s[0] == a[0]);
        assert(a[0] != '\n');
        assert(!a.drop_first().contains('\n')) by {
            if a.drop_first().contains('\n') {
                let i = choose|i: int|
                    0 <= i < a.drop_first().len() && a.drop_first()[i] == '\n';
                assert(a[i + 1] == '\n');
            }
        }
        assert(s.drop_first() =~= a.drop_first() + "\n"@ + t);
        lemma_spec_lines_split(a.drop_first(), t);
        let rest = spec_lines(s.drop_first());
        assert(rest =~= seq![a.drop_first()] + spec_lines(t));
        assert(rest[0] == a.drop_first());
        assert(seq![s[0]] + rest[0] =~= a);
        assert(rest.drop_first() =~= spec_lines(t));
    }
}

/// Joining break-free lines and splitting the text again gives the lines
/// back: the split is exact.
proof fn lemma_lines_of_join(ls: Seq<Seq<char>>)
    requires
        ls.len() >= 1,
        forall|j: int| 0 <= j < ls.len() ==> !(#[trigger] ls[j]).contains('\n'),
    ensures
        spec_lines(join_lines(ls)) =~= ls,
    decreases ls.len(),
{
    if ls.len() == 1 {
        lemma_spec_lines_no_newline(ls[0]);
        assert(seq![ls[0]] =~= ls);
    } else {
        let rest = ls.drop_first();
        assert(forall|j: int| 0 <= j < rest.len() ==> rest[j] == ls[j + 1]);
        lemma_lines_of_join(rest);
        lemma_spec_lines_split(ls[0], join_lines(rest));
        assert(join_lines(ls) == ls[0] + "\n"@ + join_lines(rest));
        assert(seq![ls[0]] + rest =~= ls);
    }
}

/// Split a text into its lines.
pub fn split_lines(s: &str) -> (r: Vec<String>)
    ensures
        r@.map(|i: int, l: String| l@) =~= spec_lines(s@),
{
    let n = s.unicode_len();
    let mut done: Vec<String> = Vec::new();
    let mut start: usize = 0;
    let mut i: usize = 0;
    while i < n
        invariant
            start <= i <= n,
            n == s@.len(),
            forall|j: int| 0 <= j < done@.len() ==> !(#[trigger] done@[j])@.contains('\n'),
            forall|j: int| start <= j < i ==> s@[j] != '\n',
            done@.len() == 0 ==> start == 0,
            done@.len() > 0 ==> join_lines(done@.map(|i0: int, l: String| l@)) + "\n"@
                == s@.take(start as int),
            done@.len() == 0 ==> s@.take(start as int) =~= Seq::<char>::empty(),
        decreases n - i,
    {
        if s.get_char(i) == '\n' {
            let line = s.substring_char(start, i).to_owned();
            let ghost done0 = done@.map(|i0: int, l: String| l@);
            proof {
                reveal_strlit("\n");
                assert(!line@.contains('\n')) by {
                    if line@.contains('\n') {
                        let j = choose|j: int| 0 <= j < line@.len() && line@[j] == '\n';
                        assert(s@[start + j] == '\n');
                    }
                }
            }
            done.push(line);
            proof {
                let done1 = done@.map(|i0: int, l: String| l@);
                assert(done1 =~= done0.push(s@.subrange(start as int, i as int)));
                lemma_join_push(done0, s@.subrange(start as int, i as int));
                assert(join_lines(done1) + "\n"@ =~= s@.take(i + 1)) by {
                    if done0.len() == 0 {
                        assert(join_lines(done1) == s@.subrange(start as int, i as int));
                        assert(s@.take(start as int) =~= Seq::<char>::empty());
                        assert(start == 0);
                        assert(join_lines(done1) + "\n"@ =~= s@.take(i + 1)) by {
                            assert(s@[i as int] == '\n');
                            assert(s@.subrange(0, i as int) + "\n"@ =~= s@.take(i + 1));
                        }
                    } else {
                        assert(join_lines(done1) == join_lines(done0) + "\n"@ + s@.subrange(
                            start as int,
                            i as int,
                        ));
                        assert(s@.take(start as int) + s@.subrange(start as int, i as int)
                            =~= s@.take(i as int));
                        assert(s@[i as int] == '\n');
                        assert(s@.take(i as int) + "\n"@ =~= s@.take(i + 1));
                    }
                }
            }
            start = i + 1;
        }
        i = i + 1;
    }
    let last = s.substring_char(start, n).to_owned();
    proof {
        reveal_strlit("\n");
        assert(!last@.contains('\n')) by {
            if last@.contains('\n') {
                let j = choose|j: int| 0 <= j < last@.len() && last@[j] == '\n';
                assert(s@[start + j] == '\n');
            }
        }
    }
    let ghost done0 = done@.map(|i0: int, l: String| l@);
    done.push(last);
    proof {
        let done1 = done@.map(|i0: int, l: String| l@);
        assert(done1 =~= done0.push(s@.subrange(start as int, n as int)));
        lemma_join_push(done0, s@.subrange(start as int, n as int));
        assert(join_lines(done1) =~= s@) by {
            if done0.len() == 0 {
                assert(s@.take(start as int) =~= Seq::<char>::empty());
                assert(start == 0);
                assert(s@.subrange(0, n as int) =~= s@);
            } else {
                assert(join_lines(done1) == join_lines(done0) + "\n"@ + s@.subrange(
                    start as int,
                    n as int,
                ));
                assert(s@.take(start as int) + s@.subrange(start as int, n as int) =~= s@);
            }
        }
        lemma_lines_of_join(done1);
    }
    done
}

/// Pushing a line extends the joined text by a break and the line (or is the
/// line itself when nothing was joined yet).
proof fn lemma_join_push(ls: Seq<Seq<char>>, x: Seq<char>)
    ensures
        ls.len() == 0 ==> join_lines(ls.push(x)) == x,
        ls.len() > 0 ==> join_lines(ls.push(x)) == join_lines(ls) + "\n"@ + x,
    decreases ls.len(),
{
    if ls.len() == 0 {
        assert(ls.push(x).len() == 1);
        assert(ls.push(x)[0] == x);
    } else if ls.len() == 1 {
        assert(ls.push(x)[0] == ls[0]);
        assert(ls.push(x).drop_first() =~= seq![x]);
        assert(join_lines(seq![x]) == x);
        assert(join_lines(ls.push(x)) == ls[0] + "\n"@ + x);
    } else {
        assert(ls.push(x)[0] == ls[0]);
        assert(ls.push(x).drop_first() =~= ls.drop_first().push(x));
        lemma_join_push(ls.drop_first(), x);
        assert(join_lines(ls.push(x)) =~= join_lines(ls) + "\n"@ + x);
    }
}

/// What one ignore-file line means: a comment or empty line is no rule, a
/// line starting with a slash is a fixed path under the root, any other line
/// is a suffix pattern.
pub open spec fn spec_parse_rule(root: Seq<char>, line: Seq<char>) -> Option<IgnoredFileView> {
    if line.len() == 0 {
        None
    } else if line[0] == '#' {
        None
    } else if line[0] == '/' {
        Some(IgnoredFileView::Fixed(spec_path_join(root, line.subrange(1, line.len() as int))))
    } else {
        Some(IgnoredFileView::Prefixed(line))
    }
}

/// The rules an ignore file's lines yield, in file order.
pub open spec fn spec_parse_rules(root: Seq<char>, lines: Seq<Seq<char>>) -> Seq<IgnoredFileView>
    decreases lines.len(),
{
    if lines.len() == 0 {
        Seq::empty()
    } else {
        match spec_parse_rule(root, lines[0]) {
            None => spec_parse_rules(root, lines.drop_first()),
            Some(r) => seq![r] + spec_parse_rules(root, lines.drop_first()),
        }
    }
}

proof fn lemma_parse_rules_push(root: Seq<char>, lines: Seq<Seq<char>>, x: Seq<char>)
    ensures
        spec_parse_rules(root, lines.push(x)) == spec_parse_rules(root, lines) + (
        match spec_parse_rule(root, x) {
            None => Seq::<IgnoredFileView>::empty(),
            Some(r) => seq![r],
        }),
    decreases lines.len(),
{
    let tail = match spec_parse_rule(root, x) {
        None => Seq::<IgnoredFileView>::empty(),
        Some(r) => seq![r],
    };
    if lines.len() == 0 {
        assert(lines.push(x)[0] == x);
        assert(lines.push(x).drop_first() =~= lines);
        assert(spec_parse_rules(root, lines.push(x)) =~= spec_parse_rules(root, lines) + tail);
    } else {
        assert(lines.push(x)[0] == lines[0]);
        assert(lines.push(x).drop_first() =~= lines.drop_first().push(x));
        lemma_parse_rules_push(root, lines.drop_first(), x);
        assert(spec_parse_rules(root, lines.push(x)) =~= spec_parse_rules(root, lines) + tail);
    }
}

/// Parse the ignore file, given its text where the file exists. A repository
/// with no ignore file has no rules.
pub fn read_ignored(root_path: &RootPath, contents: Option<&str>) -> (r: Vec<IgnoredFile>)
    ensures
        match contents {
            None => r@.len() == 0,
            Some(text) => rules_view(r@) =~= spec_parse_rules(root_path@, spec_lines(text@)),
        },
{
    let text = match contents {
        None => {
            return Vec::new();
        },
        Some(t) => t,
    };
    let lines = split_lines(text);
    let ghost lviews = lines@.map(|i0: int, l: String| l@);
    let n = lines.len();
    let mut parsed: Vec<IgnoredFile> = Vec::new();
    let mut i: usize = 0;
    while i < n
        invariant
            i <= n,
            n == lines@.len(),
            lviews == lines@.map(|i0: int, l: String| l@),
            rules_view(parsed@) =~= spec_parse_rules(root_path@, lviews.take(i as int)),
        decreases n - i,
    {
        let line = &lines[i];
        let llen = line.as_str().unicode_len();
        let ghost parsed0 = parsed@;
        if llen == 0 {
            // an empty line is no rule
        } else {
            let first = line.as_str().get_char(0);
            if first == '#' {
                // a comment
            } else if first == '/' {
                let stripped = str_suffix_from(line.as_str(), 1);
                parsed.push(IgnoredFile::Fixed(root_path.join(stripped.as_str())));
            } else {
                parsed.push(IgnoredFile::Prefixed(line.clone()));
            }
        }
        proof {
            assert(lviews.take(i + 1) =~= lviews.take(i as int).push(lviews[i as int]));
            lemma_parse_rules_push(root_path@, lviews.take(i as int), lviews[i as int]);
            assert(lviews[i as int] == line@);
            if parsed@.len() > parsed0.len() {
                assert(rules_view(parsed@) =~= rules_view(parsed0).push(
                    parsed@.last()@,
                ));
            } else {
                assert(rules_view(parsed@) =~= rules_view(parsed0));
            }
        }
        i = i + 1;
    }
    proof {
        assert(lviews.take(n as int) =~= lviews);
    }
    parsed
}

/// A path "ends with" a pattern in the component sense: it is the pattern
/// itself, or the pattern preceded by a separator closes it.
pub open spec fn spec_path_ends_with(s: Seq<char>, p: Seq<char>) -> bool {
    s == p || is_suffix("/"@ + p, s)
}

/// What the rules say of one path, first match winning: not mentioned,
/// ignored, or inside an ignored directory (which is an error for the
/// caller, not a silent skip).
pub enum IgnoreVerdict {
    Clear,
    Ignored,
    InsideIgnoredDir,
}

pub open spec fn spec_ignore_verdict(rules: Seq<IgnoredFileView>, path: Seq<char>) -> IgnoreVerdict
    decreases rules.len(),
{
    if rules.len() == 0 {
        IgnoreVerdict::Clear
    } else {
        match rules[0] {
            IgnoredFileView::Fixed(p) => {
                if path == p {
                    IgnoreVerdict::Ignored
                } else if spec_path_starts_with(path, p) {
                    IgnoreVerdict::InsideIgnoredDir
                } else {
                    spec_ignore_verdict(rules.drop_first(), path)
                }
            },
            IgnoredFileView::Prefixed(suffix) => {
                if spec_path_ends_with(path, suffix) {
                    IgnoreVerdict::Ignored
                } else {
                    spec_ignore_verdict(rules.drop_first(), path)
                }
            },
        }
    }
}

/// Evaluate the rules on a path. A path inside an ignored directory is
/// refused with an error naming the path, as the rules demand.
pub fn is_path_ignored(rules: &Vec<IgnoredFile>, path: &AbsolutePath) -> (r: Result<
    bool,
    GustError,
>)
    ensures
        match spec_ignore_verdict(rules_view(rules@), path@) {
            IgnoreVerdict::Clear => r == Result::<bool, GustError>::Ok(false),
            IgnoreVerdict::Ignored => r == Result::<bool, GustError>::Ok(true),
            IgnoreVerdict::InsideIgnoredDir => r matches Err(e) && e matches GustError::User(m)
                && m@ == "Path "@ + path@ + " is inside a directory that is ignored"@,
        },
{
    let n = rules.len();
    proof {
        assert(rules_view(rules@).skip(0) =~= rules_view(rules@));
    }
    let mut i: usize = 0;
    while i < n
        invariant
            i <= n,
            n == rules@.len(),
            spec_ignore_verdict(rules_view(rules@), path@) == spec_ignore_verdict(
                rules_view(rules@).skip(i as int),
                path@,
            ),
        decreases n - i,
    {
        let ghost rv = rules_view(rules@);
        proof {
            assert(rv.skip(i as int)[0] == rv[i as int]);
            assert(rv.skip(i as int).drop_first() =~= rv.skip(i + 1));
        }
        match &rules[i] {
            IgnoredFile::Fixed(p) => {
                if path.equals(p) {
                    return Ok(true);
                } else if path.starts_with(p) {
                    let mut m = String::from_str("Path ");
                    m.append(path.as_path());
                    m.append(" is inside a directory that is ignored");
                    return Err(GustError::User(m));
                }
            },
            IgnoredFile::Prefixed(suffix) => {
                let mut joined = String::from_str("/");
                joined.append(suffix.as_str());
                if str_eq(path.as_path(), suffix.as_str()) || str_ends_with(
                    path.as_path(),
                    joined.as_str(),
                ) {
                    return Ok(true);
                }
            },
        }
        i = i + 1;
    }
    Ok(false)
}

} // verus!

//! Character-sequence utilities shared by the request parser: searching for a
//! character, splitting text into lines, joining lines, and removing carriage
//! returns.  Each executable function is proved against a recursive
//! specification over `Seq<char>`.

use vstd::prelude::*;

verus! {

/// Index of the first occurrence of `c` in `s`, if any.
pub open spec fn find_char(s: Seq<char>, c: char) -> Option<int>
    decreases s.len(),
{
    if s.len() == 0 {
        None
    } else if s[0] == c {
        Some(0)
    } else {
        match find_char(s.drop_first(), c) {
            Some(i) => Some(i + 1),
            None => None,
        }
    }
}

/// `find_char` returns exactly the first occurrence.
pub proof fn lemma_find_char(s: Seq<char>, c: char)
    ensures
        match find_char(s, c) {
            Some(i) => 0 <= i < s.len() && s[i] == c && (forall|j: int| 0 <= j < i ==> s[j] != c),
            None => forall|j: int| 0 <= j < s.len() ==> s[j] != c,
        },
    decreases s.len(),
{
    if s.len() == 0 {
    } else if s[0] == c {
    } else {
        lemma_find_char(s.drop_first(), c);
        assert(forall|j: int| 1 <= j < s.len() ==> s[j] == s.drop_first()[j - 1]);
    }
}

/// A witness of a first occurrence pins `find_char` down.
pub proof fn lemma_find_char_unique(s: Seq<char>, c: char, i: int)
    requires
        0 <= i < s.len(),
        s[i] == c,
        forall|j: int| 0 <= j < i ==> s[j] != c,
    ensures
        find_char(s, c) == Some(i),
{
    lemma_find_char(s, c);
    match find_char(s, c) {
        None => {
            assert(s[i] != c);
        },
        Some(k) => {
            if k < i {
                assert(s[k] != c);
            }
            if k > i {
                assert(s[i] != c);
            }
        },
    }
}

/// Without any occurrence, `find_char` finds none.
pub proof fn lemma_find_char_absent(s: Seq<char>, c: char)
    requires
        forall|j: int| 0 <= j < s.len() ==> s[j] != c,
    ensures
        find_char(s, c) is None,
{
    lemma_find_char(s, c);
    if find_char(s, c) is Some {
        let k: int = find_char(s, c).unwrap();
        assert(s[k] != c);
    }
}

/// Index of the first header separator `": "` in `s`, if any.
pub open spec fn find_header_sep(s: Seq<char>) -> Option<int>
    decreases s.len(),
{
    if s.len() < 2 {
        None
    } else if s[0] == ':' && s[1] == ' ' {
        Some(0)
    } else {
        match find_header_sep(s.drop_first()) {
            Some(i) => Some(i + 1),
            None => None,
        }
    }
}

/// Whether position `i` of `s` starts the two-character separator `": "`.
pub open spec fn sep_at(s: Seq<char>, i: int) -> bool {
    0 <= i && i + 1 < s.len() && s[i] == ':' && s[i + 1] == ' '
}

/// `find_header_sep` returns exactly the first occurrence of `": "`.
pub proof fn lemma_find_header_sep(s: Seq<char>)
    ensures
        match find_header_sep(s) {
            Some(i) => sep_at(s, i) && (forall|j: int| 0 <= j < i ==> !sep_at(s, j)),
            None => forall|j: int| !sep_at(s, j),
        },
    decreases s.len(),
{
    if s.len() < 2 {
    } else if s[0] == ':' && s[1] == ' ' {
    } else {
        lemma_find_header_sep(s.drop_first());
        assert(forall|j: int| 1 <= j < s.len() ==> s[j] == s.drop_first()[j - 1]);
        assert(forall|j: int| sep_at(s, j) ==> j >= 1 && sep_at(s.drop_first(), j - 1));
    }
}

/// The segments of `s` between occurrences of `'\n'`, in order.  Empty
/// segments are kept, so the result always has one more entry than `s` has
/// newline characters.
pub open spec fn lines_of(s: Seq<char>) -> Seq<Seq<char>>
    decreases s.len(),
    via lines_of_decreases
{
    match find_char(s, '\n') {
        None => seq![s],
        Some(i) => seq![s.subrange(0, i)] + lines_of(s.subrange(i + 1, s.len() as int)),
    }
}

#[via_fn]
proof fn lines_of_decreases(s: Seq<char>) {
    lemma_find_char(s, '\n');
}

/// Splitting always yields at least one line.
proof fn lemma_lines_of_nonempty(s: Seq<char>)
    ensures
        lines_of(s).len() >= 1,
{
    lemma_find_char(s, '\n');
}

/// The two-character line terminator used when joining body lines.
pub open spec fn crlf() -> Seq<char> {
    seq!['\r', '\n']
}

/// The lines of `ls` joined with `"\r\n"` between consecutive lines.
pub open spec fn join_crlf(ls: Seq<Seq<char>>) -> Seq<char>
    decreases ls.len(),
{
    if ls.len() == 0 {
        Seq::empty()
    } else if ls.len() == 1 {
        ls[0]
    } else {
        ls[0] + crlf() + join_crlf(ls.drop_first())
    }
}

/// Joining one more line appends a separator (except onto an empty list).
proof fn lemma_join_crlf_push(p: Seq<Seq<char>>, x: Seq<char>)
    ensures
        join_crlf(p.push(x)) == if p.len() == 0 {
            x
        } else {
            join_crlf(p) + crlf() + x
        },
    decreases p.len(),
{
    if p.len() == 0 {
        assert(join_crlf(p.push(x)) == p.push(x)[0]);
        assert(p.push(x)[0] == x);
    } else if p.len() == 1 {
        assert(p.push(x).drop_first() =~= seq![x]);
        assert(p.push(x)[0] == p[0]);
        assert(seq![x][0] == x);
        assert(join_crlf(seq![x]) == x);
        assert(join_crlf(p.push(x)) == p[0] + crlf() + x);
        assert(join_crlf(p) == p[0]);
    } else {
        lemma_join_crlf_push(p.drop_first(), x);
        assert(p.push(x).drop_first() =~= p.drop_first().push(x));
        assert(join_crlf(p.push(x)) == p[0] + crlf() + (join_crlf(p.drop_first()) + crlf() + x));
        assert(p[0] + crlf() + (join_crlf(p.drop_first()) + crlf() + x) =~= (p[0] + crlf()
            + join_crlf(p.drop_first())) + crlf() + x);
    }
}

/// `s` with every carriage return removed.
pub open spec fn strip_cr(s: Seq<char>) -> Seq<char>
    decreases s.len(),
{
    if s.len() == 0 {
        Seq::empty()
    } else if s[0] == '\r' {
        strip_cr(s.drop_first())
    } else {
        seq![s[0]] + strip_cr(s.drop_first())
    }
}

/// Stripping distributes over a split at the first carriage return.
proof fn lemma_strip_cr_split(s: Seq<char>, i: int)
    requires
        0 <= i <= s.len(),
        forall|j: int| 0 <= j < i ==> s[j] != '\r',
    ensures
        strip_cr(s) == s.subrange(0, i) + strip_cr(s.subrange(i, s.len() as int)),
    decreases i,
{
    if i == 0 {
        assert(s.subrange(0, s.len() as int) =~= s);
        assert(s.subrange(0, 0) + strip_cr(s) =~= strip_cr(s));
    } else {
        lemma_strip_cr_split(s.drop_first(), i - 1);
        assert(s.drop_first().subrange(0, i - 1) =~= s.subrange(1, i));
        assert(s.drop_first().subrange(i - 1, s.drop_first().len() as int) =~= s.subrange(
            i,
            s.len() as int,
        ));
        assert(strip_cr(s) == seq![s[0]] + (s.subrange(1, i) + strip_cr(
            s.subrange(i, s.len() as int),
        )));
        assert(seq![s[0]] + (s.subrange(1, i) + strip_cr(s.subrange(i, s.len() as int)))
            =~= s.subrange(0, i) + strip_cr(s.subrange(i, s.len() as int)));
    }
}

/// When `s` holds no carriage return, stripping leaves it unchanged.
proof fn lemma_strip_cr_clean(s: Seq<char>)
    requires
        forall|j: int| 0 <= j < s.len() ==> s[j] != '\r',
    ensures
        strip_cr(s) == s,
    decreases s.len(),
{
    if s.len() == 0 {
        assert(strip_cr(s) =~= s);
    } else {
        lemma_strip_cr_clean(s.drop_first());
        assert(seq![s[0]] + s.drop_first() =~= s);
    }
}

/// Whether the characters of `a` equal those of `b`.
pub fn str_eq(a: &str, b: &str) -> (r: bool)
    ensures
        r == (a@ == b@),
{
    let na = a.unicode_len();
    let nb = b.unicode_len();
    if na != nb {
        assert(a@ != b@);
        return false;
    }
    let mut i: usize = 0;
    while i < na
        invariant
            na == a@.len(),
            na == b@.len(),
            0 <= i <= na,
            forall|j: int| 0 <= j < i ==> a@[j] == b@[j],
        decreases na - i,
    {
        if a.get_char(i) != b.get_char(i) {
            return false;
        }
        i += 1;
    }
    proof {
        assert(a@ =~= b@);
    }
    true
}

/// Index of the first occurrence of `c` in `s` at or after `from`.
pub fn find_char_in(s: &str, from: usize, c: char) -> (r: Option<usize>)
    requires
        from <= s@.len(),
    ensures
        match r {
            Some(i) => from <= i < s@.len() && s@[i as int] == c && (forall|j: int|
                from <= j < i ==> s@[j] != c),
            None => forall|j: int| from <= j < s@.len() ==> s@[j] != c,
        },
{
    let n = s.unicode_len();
    let mut i: usize = from;
    while i < n
        invariant
            n == s@.len(),
            from <= i <= n,
            forall|j: int| from <= j < i ==> s@[j] != c,
        decreases n - i,
    {
        if s.get_char(i) == c {
            return Some(i);
        }
        i += 1;
    }
    None
}

/// Index of the first `": "` separator in `s`, if any.
pub fn find_header_sep_in(s: &str) -> (r: Option<usize>)
    ensures
        match r {
            Some(i) => find_header_sep(s@) == Some(i as int),
            None => find_header_sep(s@) is None,
        },
{
    let n = s.unicode_len();
    if n < 2 {
        return None;
    }
    let mut i: usize = 0;
    while i + 1 < n
        invariant
            n == s@.len(),
            0 <= i <= n - 1,
            n >= 2,
            forall|j: int| 0 <= j < i ==> !sep_at(s@, j),
        decreases n - i,
    {
        if s.get_char(i) == ':' && s.get_char(i + 1) == ' ' {
            proof {
                lemma_find_header_sep(s@);
                assert(sep_at(s@, i as int));
                match find_header_sep(s@) {
                    None => {
                        assert(false);
                    },
                    Some(k) => {
                        if k < i as int {
                            assert(!sep_at(s@, k));
                            assert(false);
                        }
                        if k > i as int {
                            assert(!sep_at(s@, i as int));
                            assert(false);
                        }
                    },
                }
            }
            return Some(i);
        }
        assert(!sep_at(s@, i as int));
        i += 1;
    }
    proof {
        lemma_find_header_sep(s@);
        assert(forall|j: int| !sep_at(s@, j));
        if find_header_sep(s@) is Some {
            let k: int = find_header_sep(s@).unwrap();
            assert(sep_at(s@, k));
            assert(false);
        }
    }
    None
}

/// The views of a sequence of strings.
pub open spec fn views_of(ls: Seq<String>) -> Seq<Seq<char>> {
    ls.map_values(|l: String| l@)
}

/// Splits `s` into its lines, the segments between `'\n'` characters.
pub fn split_lines(s: &str) -> (r: Vec<String>)
    ensures
        views_of(r@) == lines_of(s@),
        r@.len() >= 1,
{
    let n = s.unicode_len();
    let mut acc: Vec<String> = Vec::new();
    let mut pos: usize = 0;
    proof {
        assert(s@.subrange(0, n as int) =~= s@);
        assert(views_of(acc@) + lines_of(s@) =~= lines_of(s@));
    }
    loop
        invariant
            n == s@.len(),
            0 <= pos <= n,
            lines_of(s@) == views_of(acc@) + lines_of(s@.subrange(pos as int, n as int)),
        decreases n - pos,
    {
        let ghost rem = s@.subrange(pos as int, n as int);
        match find_char_in(s, pos, '\n') {
            Some(i) => {
                let line = String::from_str(s.substring_char(pos, i));
                proof {
                    lemma_find_char(rem, '\n');
                    // the newline found at absolute index i is the first in `rem`
                    assert(rem[i - pos] == '\n');
                    assert(forall|j: int| 0 <= j < i - pos ==> rem[j] != '\n');
                    match find_char(rem, '\n') {
                        None => {
                            assert(false);
                        },
                        Some(k) => {
                            if k < i - pos {
                                assert(rem[k] != '\n');
                                assert(false);
                            }
                            if k > i - pos {
                                assert(rem[i - pos] != '\n');
                                assert(false);
                            }
                        },
                    }
                    assert(find_char(rem, '\n') == Some(i - pos));
                    assert(rem.subrange(0, i - pos) =~= s@.subrange(pos as int, i as int));
                    assert(rem.subrange(i - pos + 1, rem.len() as int) =~= s@.subrange(
                        i + 1,
                        n as int,
                    ));
                    assert(lines_of(rem) == seq![s@.subrange(pos as int, i as int)] + lines_of(
                        s@.subrange(i + 1, n as int),
                    ));
                    assert(views_of(acc@.push(line)) =~= views_of(acc@) + seq![
                        s@.subrange(pos as int, i as int),
                    ]);
                    assert((views_of(acc@) + seq![s@.subrange(pos as int, i as int)]) + lines_of(
                        s@.subrange(i + 1, n as int),
                    ) =~= views_of(acc@) + lines_of(rem));
                }
                acc.push(line);
                pos = i + 1;
            },
            None => {
                let line = String::from_str(s.substring_char(pos, n));
                proof {
                    lemma_find_char(rem, '\n');
                    if find_char(rem, '\n') is Some {
                        let k: int = find_char(rem, '\n').unwrap();
                        assert(rem[k] != '\n');
                        assert(false);
                    }
                    assert(lines_of(rem) == seq![rem]);
                    assert(views_of(acc@.push(line)) =~= views_of(acc@) + seq![rem]);
                }
                acc.push(line);
                proof {
                    lemma_lines_of_nonempty(s@);
                }
                return acc;
            },
        }
    }
}

/// Returns `s` with every carriage return removed.
pub fn strip_cr_str(s: &str) -> (r: String)
    ensures
        r@ == strip_cr(s@),
{
    let n = s.unicode_len();
    let mut out = String::new();
    let mut pos: usize = 0;
    proof {
        assert(s@.subrange(0, n as int) =~= s@);
        assert(out@ + strip_cr(s@) =~= strip_cr(s@));
    }
    loop
        invariant
            n == s@.len(),
            0 <= pos <= n,
            strip_cr(s@) == out@ + strip_cr(s@.subrange(pos as int, n as int)),
        decreases n - pos,
    {
        let ghost rem = s@.subrange(pos as int, n as int);
        match find_char_in(s, pos, '\r') {
            Some(i) => {
                out.append(s.substring_char(pos, i));
                proof {
                    lemma_strip_cr_split(rem, i - pos);
                    assert(rem.subrange(0, i - pos) =~= s@.subrange(pos as int, i as int));
                    assert(rem.subrange(i - pos, rem.len() as int) =~= s@.subrange(
                        i as int,
                        n as int,
                    ));
                    // drop the carriage return itself
                    let tail = s@.subrange(i as int, n as int);
                    assert(tail[0] == '\r');
                    assert(tail.drop_first() =~= s@.subrange(i + 1, n as int));
                    assert(strip_cr(tail) == strip_cr(s@.subrange(i + 1, n as int)));
                    assert(out@ + strip_cr(s@.subrange(i + 1, n as int)) =~= strip_cr(s@));
                }
                pos = i + 1;
            },
            None => {
                out.append(s.substring_char(pos, n));
                proof {
                    lemma_strip_cr_clean(rem);
                    assert(out@ =~= strip_cr(s@));
                }
                return out;
            },
        }
    }
}

/// Joins the lines of `lines` from index `start` on with `"\r\n"`.
pub fn join_crlf_from(lines: &Vec<String>, start: usize) -> (r: String)
    requires
        start <= lines@.len(),
    ensures
        r@ == join_crlf(views_of(lines@).subrange(start as int, lines@.len() as int)),
{
    let n = lines.len();
    let mut out = String::new();
    let mut i: usize = start;
    while i < n
        invariant
            n == lines@.len(),
            start <= i <= n,
            out@ == join_crlf(views_of(lines@).subrange(start as int, i as int)),
        decreases n - i,
    {
        let ghost part = views_of(lines@).subrange(start as int, i as int);
        if i > start {
            out.append("\r\n");
            proof {
                reveal_strlit("\r\n");
                assert("\r\n"@ =~= crlf());
            }
        }
        out.append(lines[i].as_str());
        proof {
            lemma_join_crlf_push(part, lines@[i as int]@);
            assert(part.push(lines@[i as int]@) =~= views_of(lines@).subrange(
                start as int,
                i + 1,
            ));
            if i > start {
                assert(part.len() > 0);
                assert(out@ == (join_crlf(part) + crlf()) + lines@[i as int]@);
                assert((join_crlf(part) + crlf()) + lines@[i as int]@ =~= join_crlf(part) + crlf()
                    + lines@[i as int]@);
            } else {
                assert(part.len() == 0);
                assert(join_crlf(part) =~= Seq::<char>::empty());
                assert(out@ =~= lines@[i as int]@);
            }
        }
        i += 1;
    }
    proof {
        if i == start {
            assert(views_of(lines@).subrange(start as int, start as int) =~= Seq::<
                Seq<char>,
            >::empty());
            assert(out@ =~= Seq::<char>::empty());
        }
    }
    out
}

} // verus!

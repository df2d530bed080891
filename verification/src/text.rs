//! Character-level text utilities shared by the parser and the emitter:
//! the whitespace set used for trimming, trimming itself, the search for the
//! first `": "` separator, and splitting text into lines at `'\n'`.

use vstd::prelude::*;
use vstd::string::StrSliceExecFns;

verus! {

/// The whitespace character set used for all trimming: the Unicode
/// `White_Space` code points.
pub open spec fn is_space(c: char) -> bool {
    let u = c as u32;
    ||| u == 0x20
    ||| (0x9 <= u && u <= 0xD)
    ||| u == 0x85
    ||| u == 0xA0
    ||| u == 0x1680
    ||| (0x2000 <= u && u <= 0x200A)
    ||| u == 0x2028
    ||| u == 0x2029
    ||| u == 0x202F
    ||| u == 0x205F
    ||| u == 0x3000
}

/// Decides [`is_space`].
pub fn is_space_char(c: char) -> (b: bool)
    ensures
        b == is_space(c),
{
    let u = c as u32;
    u == 0x20 || (0x9 <= u && u <= 0xD) || u == 0x85 || u == 0xA0 || u == 0x1680 || (0x2000 <= u
        && u <= 0x200A) || u == 0x2028 || u == 0x2029 || u == 0x202F || u == 0x205F || u == 0x3000
}

/// `s` with every leading whitespace character removed.
pub open spec fn trim_start(s: Seq<char>) -> Seq<char>
    decreases s.len(),
{
    if s.len() > 0 && is_space(s[0]) {
        trim_start(s.subrange(1, s.len() as int))
    } else {
        s
    }
}

/// `s` with every trailing whitespace character removed.
pub open spec fn trim_end(s: Seq<char>) -> Seq<char>
    decreases s.len(),
{
    if s.len() > 0 && is_space(s[s.len() - 1]) {
        trim_end(s.subrange(0, s.len() - 1))
    } else {
        s
    }
}

/// `s` with leading and trailing whitespace removed.
pub open spec fn trim(s: Seq<char>) -> Seq<char> {
    trim_end(trim_start(s))
}

/// If the first `i` characters are whitespace, trimming from the start skips
/// them all.
proof fn lemma_trim_start_skips(s: Seq<char>, i: int)
    requires
        0 <= i <= s.len(),
        forall|k: int| 0 <= k < i ==> is_space(s[k]),
        i == s.len() || !is_space(s[i]),
    ensures
        trim_start(s) == s.subrange(i, s.len() as int),
    decreases i,
{
    if i == 0 {
        if s.len() > 0 {
            assert(!is_space(s[0]));
        }
        assert(s.subrange(0, s.len() as int) =~= s);
    } else {
        let t = s.subrange(1, s.len() as int);
        lemma_trim_start_skips(t, i - 1);
        assert(t.subrange(i - 1, t.len() as int) =~= s.subrange(i, s.len() as int));
    }
}

/// If the characters from `j` on are whitespace, trimming from the end drops
/// them all.
proof fn lemma_trim_end_skips(s: Seq<char>, j: int)
    requires
        0 <= j <= s.len(),
        forall|k: int| j <= k < s.len() ==> is_space(s[k]),
        j == 0 || !is_space(s[j - 1]),
    ensures
        trim_end(s) == s.subrange(0, j),
    decreases s.len() - j,
{
    if j == s.len() {
        if s.len() > 0 {
            assert(!is_space(s[s.len() - 1]));
        }
        assert(s.subrange(0, s.len() as int) =~= s);
    } else {
        let t = s.subrange(0, s.len() - 1);
        assert(is_space(s[s.len() - 1]));
        lemma_trim_end_skips(t, j);
        assert(t.subrange(0, j) =~= s.subrange(0, j));
    }
}

/// A string that neither starts nor ends with whitespace is its own trim.
pub proof fn lemma_trim_of_clean(s: Seq<char>)
    requires
        s.len() == 0 || (!is_space(s[0]) && !is_space(s[s.len() - 1])),
    ensures
        trim(s) == s,
{
    lemma_trim_start_skips(s, 0);
    assert(s.subrange(0, s.len() as int) =~= s);
    lemma_trim_end_skips(s, s.len() as int);
}

/// A nonempty trimmed string starts and ends with a non-whitespace character.
pub proof fn lemma_trimmed_ends(s: Seq<char>)
    requires
        trim(s) == s,
        s.len() > 0,
    ensures
        !is_space(s[0]),
        !is_space(s[s.len() - 1]),
{
    if is_space(s[0]) {
        lemma_trim_start_len(s);
        lemma_trim_end_len(trim_start(s));
        assert(trim_start(s).len() < s.len());
    }
    if is_space(s[s.len() - 1]) {
        assert(trim_start(s) == s) by {
            lemma_trim_start_skips(s, 0);
            assert(s.subrange(0, s.len() as int) =~= s);
        }
        lemma_trim_end_len(s);
        assert(trim_end(s).len() < s.len());
    }
}

/// Trimming from the start never lengthens a string, and shortens a string
/// that starts with whitespace.
proof fn lemma_trim_start_len(s: Seq<char>)
    ensures
        trim_start(s).len() <= s.len(),
        s.len() > 0 && is_space(s[0]) ==> trim_start(s).len() < s.len(),
    decreases s.len(),
{
    if s.len() > 0 && is_space(s[0]) {
        lemma_trim_start_len(s.subrange(1, s.len() as int));
    }
}

/// Trimming from the end never lengthens a string, and shortens a string
/// that ends with whitespace.
proof fn lemma_trim_end_len(s: Seq<char>)
    ensures
        trim_end(s).len() <= s.len(),
        s.len() > 0 && is_space(s[s.len() - 1]) ==> trim_end(s).len() < s.len(),
    decreases s.len(),
{
    if s.len() > 0 && is_space(s[s.len() - 1]) {
        lemma_trim_end_len(s.subrange(0, s.len() - 1));
    }
}

/// Trimming from the start yields a suffix whose first character, if any, is
/// not whitespace.
pub proof fn lemma_trim_start_suffix(s: Seq<char>)
    ensures
        trim_start(s).len() <= s.len(),
        trim_start(s) == s.subrange(s.len() - trim_start(s).len(), s.len() as int),
        trim_start(s).len() > 0 ==> !is_space(trim_start(s)[0]),
    decreases s.len(),
{
    if s.len() > 0 && is_space(s[0]) {
        let t = s.subrange(1, s.len() as int);
        lemma_trim_start_suffix(t);
        assert(t.subrange(t.len() - trim_start(t).len(), t.len() as int) =~= s.subrange(
            s.len() - trim_start(s).len(),
            s.len() as int,
        ));
    } else {
        assert(s.subrange(0, s.len() as int) =~= s);
    }
}

/// Trimming from the end yields a prefix whose last character, if any, is
/// not whitespace.
pub proof fn lemma_trim_end_prefix(s: Seq<char>)
    ensures
        trim_end(s).len() <= s.len(),
        trim_end(s) == s.subrange(0, trim_end(s).len() as int),
        trim_end(s).len() > 0 ==> !is_space(trim_end(s)[trim_end(s).len() - 1]),
    decreases s.len(),
{
    if s.len() > 0 && is_space(s[s.len() - 1]) {
        let t = s.subrange(0, s.len() - 1);
        lemma_trim_end_prefix(t);
        assert(t.subrange(0, trim_end(t).len() as int) =~= s.subrange(
            0,
            trim_end(s).len() as int,
        ));
    } else {
        assert(s.subrange(0, s.len() as int) =~= s);
    }
}

/// A string whose start-trim is empty is whitespace throughout.
pub proof fn lemma_trim_start_space_only(s: Seq<char>)
    requires
        trim_start(s).len() == 0,
    ensures
        forall|k: int| 0 <= k < s.len() ==> is_space(s[k]),
    decreases s.len(),
{
    if s.len() > 0 {
        if is_space(s[0]) {
            let t = s.subrange(1, s.len() as int);
            lemma_trim_start_space_only(t);
            assert forall|k: int| 0 <= k < s.len() implies is_space(s[k]) by {
                if k > 0 {
                    assert(is_space(t[k - 1]));
                }
            }
        } else {
            assert(trim_start(s) == s);
        }
    }
}

/// `n` space characters.
pub open spec fn spaces(n: nat) -> Seq<char>
    decreases n,
{
    if n == 0 {
        Seq::<char>::empty()
    } else {
        spaces((n - 1) as nat).push(' ')
    }
}

/// What [`spaces`] is, pointwise.
pub proof fn lemma_spaces_all(n: nat)
    ensures
        spaces(n).len() == n,
        forall|k: int| 0 <= k < n ==> spaces(n)[k] == ' ',
    decreases n,
{
    if n > 0 {
        lemma_spaces_all((n - 1) as nat);
    }
}

/// Leading spaces fall to the start-trim.
pub proof fn lemma_trim_start_spaces(n: nat, rest: Seq<char>)
    ensures
        trim_start(spaces(n) + rest) == trim_start(rest),
    decreases n,
{
    if n == 0 {
        assert(spaces(n) + rest =~= rest);
    } else {
        lemma_spaces_all(n);
        let s = spaces(n) + rest;
        assert(is_space(s[0]));
        assert(s.subrange(1, s.len() as int) =~= spaces((n - 1) as nat) + rest) by {
            lemma_spaces_all((n - 1) as nat);
        }
        lemma_trim_start_spaces((n - 1) as nat, rest);
    }
}

/// Trims leading and trailing whitespace from a string slice.
pub fn trim_str<'a>(s: &'a str) -> (r: &'a str)
    ensures
        r@ == trim(s@),
{
    let n = s.unicode_len();
    let mut i: usize = 0;
    while i < n && is_space_char(s.get_char(i))
        invariant
            0 <= i <= n,
            n == s@.len(),
            forall|k: int| 0 <= k < i ==> is_space(s@[k]),
        decreases n - i,
    {
        i = i + 1;
    }
    let mut j: usize = n;
    while j > i && is_space_char(s.get_char(j - 1))
        invariant
            i <= j <= n,
            n == s@.len(),
            forall|k: int| 0 <= k < i ==> is_space(s@[k]),
            i == n || !is_space(s@[i as int]),
            forall|k: int| j <= k < n ==> is_space(s@[k]),
        decreases j,
    {
        j = j - 1;
    }
    proof {
        lemma_trim_start_skips(s@, i as int);
        let t = s@.subrange(i as int, n as int);
        if j == i {
            lemma_trim_end_skips(t, 0);
        } else {
            lemma_trim_end_skips(t, j - i);
        }
        assert(t.subrange(0, j - i) =~= s@.subrange(i as int, j as int));
    }
    s.substring_char(i, j)
}

/// Trims leading whitespace from a string slice.
pub fn trim_start_str<'a>(s: &'a str) -> (r: &'a str)
    ensures
        r@ == trim_start(s@),
{
    let n = s.unicode_len();
    let mut i: usize = 0;
    while i < n && is_space_char(s.get_char(i))
        invariant
            0 <= i <= n,
            n == s@.len(),
            forall|k: int| 0 <= k < i ==> is_space(s@[k]),
        decreases n - i,
    {
        i = i + 1;
    }
    proof {
        lemma_trim_start_skips(s@, i as int);
    }
    s.substring_char(i, n)
}

/// Trims trailing whitespace from a string slice.
pub fn trim_end_str<'a>(s: &'a str) -> (r: &'a str)
    ensures
        r@ == trim_end(s@),
{
    let n = s.unicode_len();
    let mut j: usize = n;
    while j > 0 && is_space_char(s.get_char(j - 1))
        invariant
            0 <= j <= n,
            n == s@.len(),
            forall|k: int| j <= k < n ==> is_space(s@[k]),
        decreases j,
    {
        j = j - 1;
    }
    proof {
        lemma_trim_end_skips(s@, j as int);
    }
    s.substring_char(0, j)
}

/// The `": "` separator stands at position `i` of `s`.
pub open spec fn is_sep_at(s: Seq<char>, i: int) -> bool {
    &&& 0 <= i
    &&& i + 1 < s.len()
    &&& s[i] == ':'
    &&& s[i + 1] == ' '
}

/// The position of the first `": "` in `s`, if any.
pub open spec fn find_sep(s: Seq<char>) -> Option<int>
    decreases s.len(),
{
    if s.len() < 2 {
        None
    } else if s[0] == ':' && s[1] == ' ' {
        Some(0int)
    } else {
        match find_sep(s.subrange(1, s.len() as int)) {
            Some(i) => Some(i + 1),
            None => None,
        }
    }
}

/// What [`find_sep`] returns: the least separator position, or nothing when
/// no position carries the separator.
pub proof fn lemma_find_sep_spec(s: Seq<char>)
    ensures
        match find_sep(s) {
            Some(i) => is_sep_at(s, i) && forall|j: int| 0 <= j < i ==> !is_sep_at(s, j),
            None => forall|j: int| !is_sep_at(s, j),
        },
    decreases s.len(),
{
    if s.len() < 2 {
    } else if s[0] == ':' && s[1] == ' ' {
    } else {
        let t = s.subrange(1, s.len() as int);
        lemma_find_sep_spec(t);
        assert(forall|j: int| 1 <= j && is_sep_at(s, j) ==> is_sep_at(t, j - 1));
        assert(forall|j: int| is_sep_at(t, j) ==> is_sep_at(s, j + 1));
        assert(!is_sep_at(s, 0));
    }
}

/// Finds the first `": "` in a string slice.
pub fn find_sep_str(s: &str) -> (r: Option<usize>)
    ensures
        match r {
            Some(i) => find_sep(s@) == Some(i as int),
            None => find_sep(s@) is None,
        },
{
    proof {
        lemma_find_sep_spec(s@);
    }
    let n = s.unicode_len();
    if n < 2 {
        return None;
    }
    let mut i: usize = 0;
    while i < n - 1
        invariant
            0 <= i <= n - 1,
            n == s@.len(),
            2 <= n,
            forall|j: int| 0 <= j < i ==> !is_sep_at(s@, j),
        decreases n - i,
    {
        if s.get_char(i) == ':' && s.get_char(i + 1) == ' ' {
            proof {
                lemma_find_sep_spec(s@);
                assert(is_sep_at(s@, i as int));
            }
            return Some(i);
        }
        i = i + 1;
    }
    proof {
        assert(forall|j: int| is_sep_at(s@, j) ==> 0 <= j < n - 1);
    }
    None
}

/// `s` begins with the list-item marker `"- "`.
pub open spec fn starts_dash(s: Seq<char>) -> bool {
    s.len() >= 2 && s[0] == '-' && s[1] == ' '
}

/// Decides [`starts_dash`] on a string slice.
pub fn starts_dash_str(s: &str) -> (b: bool)
    ensures
        b == starts_dash(s@),
{
    let n = s.unicode_len();
    n >= 2 && s.get_char(0) == '-' && s.get_char(1) == ' '
}

/// `s` split at every `'\n'`: one more piece than there are newlines, in
/// order, the separators dropped.
pub open spec fn split_lines(s: Seq<char>) -> Seq<Seq<char>>
    decreases s.len(),
{
    if s.len() == 0 {
        seq![Seq::<char>::empty()]
    } else if s[0] == '\n' {
        seq![Seq::<char>::empty()] + split_lines(s.subrange(1, s.len() as int))
    } else {
        let rest = split_lines(s.subrange(1, s.len() as int));
        seq![seq![s[0]] + rest[0]] + rest.subrange(1, rest.len() as int)
    }
}

/// Splitting yields at least one piece.
pub proof fn lemma_split_lines_nonempty(s: Seq<char>)
    ensures
        split_lines(s).len() >= 1,
    decreases s.len(),
{
    if s.len() > 0 {
        lemma_split_lines_nonempty(s.subrange(1, s.len() as int));
    }
}

/// A string without a newline splits into itself alone.
pub proof fn lemma_split_lines_whole(s: Seq<char>)
    requires
        forall|k: int| 0 <= k < s.len() ==> s[k] != '\n',
    ensures
        split_lines(s) == seq![s],
    decreases s.len(),
{
    if s.len() == 0 {
        assert(split_lines(s) =~~= seq![s]);
    } else {
        let t = s.subrange(1, s.len() as int);
        lemma_split_lines_whole(t);
        lemma_split_lines_nonempty(t);
        assert(split_lines(s) =~= seq![seq![s[0]] + t]);
        assert(seq![s[0]] + t =~= s);
    }
}

/// Splitting at the first newline: the prefix becomes the first piece and
/// the remainder splits on its own.
pub proof fn lemma_split_lines_first(s: Seq<char>, k: int)
    requires
        0 <= k < s.len(),
        s[k] == '\n',
        forall|j: int| 0 <= j < k ==> s[j] != '\n',
    ensures
        split_lines(s) == seq![s.subrange(0, k)] + split_lines(s.subrange(k + 1, s.len() as int)),
    decreases k,
{
    if k == 0 {
        assert(s.subrange(0, 0) =~= Seq::<char>::empty());
    } else {
        let t = s.subrange(1, s.len() as int);
        lemma_split_lines_first(t, k - 1);
        lemma_split_lines_nonempty(t.subrange(k, t.len() as int));
        assert(t.subrange(k, t.len() as int) =~= s.subrange(k + 1, s.len() as int));
        let rest = split_lines(t);
        assert(rest == seq![t.subrange(0, k - 1)] + split_lines(
            s.subrange(k + 1, s.len() as int),
        ));
        assert(rest[0] == t.subrange(0, k - 1));
        assert(seq![s[0]] + t.subrange(0, k - 1) =~= s.subrange(0, k));
        assert(rest.subrange(1, rest.len() as int) =~= split_lines(
            s.subrange(k + 1, s.len() as int),
        ));
        assert(split_lines(s) =~= seq![s.subrange(0, k)] + split_lines(
            s.subrange(k + 1, s.len() as int),
        ));
    }
}

/// No piece of a split contains a newline.
pub proof fn lemma_split_lines_no_newline(s: Seq<char>)
    ensures
        forall|i: int, k: int|
            0 <= i < split_lines(s).len() && 0 <= k < split_lines(s)[i].len() ==> split_lines(
                s,
            )[i][k] != '\n',
    decreases s.len(),
{
    if s.len() == 0 {
    } else {
        let t = s.subrange(1, s.len() as int);
        lemma_split_lines_no_newline(t);
        lemma_split_lines_nonempty(t);
        let rest = split_lines(t);
        if s[0] == '\n' {
            assert(forall|i: int, k: int|
                0 <= i < split_lines(s).len() && 0 <= k < split_lines(s)[i].len() ==> split_lines(
                    s,
                )[i][k] == rest[i - 1][k]);
        } else {
            assert(forall|i: int, k: int|
                1 <= i < split_lines(s).len() && 0 <= k < split_lines(s)[i].len() ==> split_lines(
                    s,
                )[i][k] == rest[i][k]);
            assert(forall|k: int|
                0 <= k < split_lines(s)[0].len() ==> split_lines(s)[0][k] != '\n') by {
                assert(split_lines(s)[0] == seq![s[0]] + rest[0]);
            }
        }
    }
}

} // verus!

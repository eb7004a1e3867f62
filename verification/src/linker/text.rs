//! Small string helpers shared by the linker and the pass pipeline.

use vstd::prelude::*;

verus! {

/// Relies on `str`'s `PartialEq`: two slices are equal exactly when their
/// character sequences are.
#[verifier::external_body]
pub fn str_eq(a: &str, b: &str) -> (r: bool)
    ensures
        r == (a@ == b@),
{
    a == b
}

/// ASCII whitespace, the separator of the rule and configuration formats.
pub open spec fn is_ws(c: char) -> bool {
    c == ' ' || c == '\t' || c == '\r' || c == '\n' || c == '\x0b' || c == '\x0c'
}

/// Length of the leading non-whitespace word of `s`.
pub open spec fn word_len(s: Seq<char>) -> nat
    decreases s.len(),
{
    if s.len() == 0 || is_ws(s[0]) {
        0
    } else {
        1 + word_len(s.drop_first())
    }
}

pub proof fn lemma_word_len(s: Seq<char>)
    ensures
        word_len(s) <= s.len(),
        forall|k: int| 0 <= k < word_len(s) ==> !is_ws(s[k]),
        word_len(s) < s.len() ==> is_ws(s[word_len(s) as int]),
    decreases s.len(),
{
    if s.len() > 0 && !is_ws(s[0]) {
        lemma_word_len(s.drop_first());
        assert(forall|k: int| 0 <= k < s.len() - 1 ==> #[trigger] s.drop_first()[k] == s[k + 1]);
        assert forall|k: int| 0 <= k < word_len(s) implies !is_ws(s[k]) by {
            if k >= 1 {
                assert(!is_ws(s.drop_first()[k - 1]));
            }
        }
    }
}

/// The whitespace-separated words of `s`, in order.
pub open spec fn ws_tokens(s: Seq<char>) -> Seq<Seq<char>>
    decreases s.len(),
    via ws_tokens_dec
{
    if s.len() == 0 {
        Seq::empty()
    } else if is_ws(s[0]) {
        ws_tokens(s.drop_first())
    } else {
        seq![s.take(word_len(s) as int)] + ws_tokens(s.skip(word_len(s) as int))
    }
}

#[via_fn]
proof fn ws_tokens_dec(s: Seq<char>) {
    if s.len() > 0 && !is_ws(s[0]) {
        lemma_word_len(s);
        assert(word_len(s) >= 1);
    }
}

/// The views of a vector of owned strings.
pub open spec fn string_views(ts: Seq<String>) -> Seq<Seq<char>> {
    ts.map_values(|t: String| t@)
}

/// Splits `s` at ASCII whitespace into its words.
pub fn split_whitespace_owned(s: &str) -> (r: Vec<String>)
    ensures
        string_views(r@) == ws_tokens(s@),
{
    let len = s.unicode_len();
    let mut r: Vec<String> = Vec::new();
    let mut i: usize = 0;
    proof {
        assert(s@.skip(0) =~= s@);
        assert(string_views(r@) =~= Seq::<Seq<char>>::empty());
    }
    while i < len
        invariant
            len == s@.len(),
            i <= len,
            string_views(r@) + ws_tokens(s@.skip(i as int)) =~= ws_tokens(s@),
        decreases len - i,
    {
        let c = s.get_char(i);
        if is_ws_exec(c) {
            proof {
                assert(s@.skip(i as int).drop_first() =~= s@.skip(i + 1));
            }
            i += 1;
        } else {
            let ghost suffix = s@.skip(i as int);
            let mut j: usize = i + 1;
            while j < len && !is_ws_exec(s.get_char(j))
                invariant
                    len == s@.len(),
                    i < j <= len,
                    forall|k: int| i <= k < j ==> !is_ws(s@[k]),
                decreases len - j,
            {
                j += 1;
            }
            proof {
                lemma_word_len(suffix);
                assert(forall|k: int| 0 <= k < suffix.len() ==> #[trigger] suffix[k] == s@[i + k]);
                let wl = word_len(suffix) as int;
                if wl < j - i {
                    assert(is_ws(suffix[wl]));
                    assert(!is_ws(s@[i + wl]));
                    assert(false);
                }
                if wl > j - i {
                    assert(j < len);
                    assert(is_ws(s@[j as int]));
                    assert(!is_ws(suffix[j - i]));
                    assert(false);
                }
                assert(wl == j - i);
            }
            let word = s.substring_char(i, j).to_owned();
            let ghost r0 = r@;
            r.push(word);
            proof {
                assert(word@ =~= suffix.take(word_len(suffix) as int));
                assert(string_views(r@) =~= string_views(r0).push(word@));
                assert(suffix.skip(word_len(suffix) as int) =~= s@.skip(j as int));
                assert(ws_tokens(suffix) == seq![word@] + ws_tokens(s@.skip(j as int)));
                assert(string_views(r0) + ws_tokens(suffix) =~= (string_views(r0).push(word@))
                    + ws_tokens(s@.skip(j as int)));
            }
            i = j;
        }
    }
    proof {
        assert(s@.skip(len as int) =~= Seq::<char>::empty());
        assert(string_views(r@) + ws_tokens(s@.skip(len as int)) =~= string_views(r@));
    }
    r
}

/// Executable mirror of [`is_ws`].
pub fn is_ws_exec(c: char) -> (r: bool)
    ensures
        r == is_ws(c),
{
    c == ' ' || c == '\t' || c == '\r' || c == '\n' || c == '\x0b' || c == '\x0c'
}

/// Index of the first newline of `s`, or its length.
pub open spec fn line_len(s: Seq<char>) -> nat
    decreases s.len(),
{
    if s.len() == 0 || s[0] == '\n' {
        0
    } else {
        1 + line_len(s.drop_first())
    }
}

pub proof fn lemma_line_len(s: Seq<char>)
    ensures
        line_len(s) <= s.len(),
        forall|k: int| 0 <= k < line_len(s) ==> s[k] != '\n',
        line_len(s) < s.len() ==> s[line_len(s) as int] == '\n',
    decreases s.len(),
{
    if s.len() > 0 && s[0] != '\n' {
        lemma_line_len(s.drop_first());
        assert(forall|k: int| 0 <= k < s.len() - 1 ==> #[trigger] s.drop_first()[k] == s[k + 1]);
        assert forall|k: int| 0 <= k < line_len(s) implies s[k] != '\n' by {
            if k >= 1 {
                assert(s.drop_first()[k - 1] != '\n');
            }
        }
    }
}

/// A line with one trailing carriage return removed.
pub open spec fn strip_cr(l: Seq<char>) -> Seq<char> {
    if l.len() > 0 && l.last() == '\r' {
        l.drop_last()
    } else {
        l
    }
}

/// The lines of `s`: split at newlines, each without its line ending, a
/// final line ending producing no extra empty line.
pub open spec fn split_lines_spec(s: Seq<char>) -> Seq<Seq<char>>
    decreases s.len(),
    via split_lines_dec
{
    if s.len() == 0 {
        Seq::empty()
    } else {
        let ll = line_len(s) as int;
        let rest = if ll < s.len() {
            split_lines_spec(s.skip(ll + 1))
        } else {
            Seq::empty()
        };
        seq![strip_cr(s.take(ll))] + rest
    }
}

#[via_fn]
proof fn split_lines_dec(s: Seq<char>) {
    if s.len() > 0 {
        lemma_line_len(s);
    }
}

/// Splits `s` into its lines.
pub fn split_lines(s: &str) -> (r: Vec<String>)
    ensures
        string_views(r@) == split_lines_spec(s@),
{
    let len = s.unicode_len();
    let mut r: Vec<String> = Vec::new();
    let mut i: usize = 0;
    proof {
        assert(s@.skip(0) =~= s@);
        assert(string_views(r@) =~= Seq::<Seq<char>>::empty());
    }
    while i < len
        invariant
            len == s@.len(),
            i <= len,
            string_views(r@) + split_lines_spec(s@.skip(i as int)) =~= split_lines_spec(s@),
        decreases len - i,
    {
        let ghost suffix = s@.skip(i as int);
        let mut j: usize = i;
        while j < len && s.get_char(j) != '\n'
            invariant
                len == s@.len(),
                i <= j <= len,
                forall|k: int| i <= k < j ==> s@[k] != '\n',
            decreases len - j,
        {
            j += 1;
        }
        proof {
            lemma_line_len(suffix);
            assert(forall|k: int| 0 <= k < suffix.len() ==> #[trigger] suffix[k] == s@[i + k]);
            let ll = line_len(suffix) as int;
            if ll < j - i {
                assert(suffix[ll] == '\n');
                assert(s@[i + ll] != '\n');
                assert(false);
            }
            if ll > j - i {
                assert(j < len);
                assert(s@[j as int] == '\n');
                assert(suffix[j - i] != '\n');
                assert(false);
            }
            assert(ll == j - i);
        }
        let line_end = if j > i && s.get_char(j - 1) == '\r' {
            j - 1
        } else {
            j
        };
        let line = s.substring_char(i, line_end).to_owned();
        let ghost r0 = r@;
        r.push(line);
        proof {
            let ll = line_len(suffix) as int;
            assert(suffix.take(ll) =~= s@.subrange(i as int, j as int));
            if j > i && s@[j - 1] == '\r' {
                assert(suffix.take(ll).len() > 0 && suffix.take(ll).last() == '\r');
                assert(line@ =~= strip_cr(suffix.take(ll)));
            } else {
                assert(line@ =~= strip_cr(suffix.take(ll)));
            }
            assert(string_views(r@) =~= string_views(r0).push(line@));
            if j < len {
                assert(suffix.skip(ll + 1) =~= s@.skip(j + 1));
                assert(split_lines_spec(suffix) == seq![strip_cr(suffix.take(ll))]
                    + split_lines_spec(s@.skip(j + 1)));
                assert(string_views(r0) + split_lines_spec(suffix) =~= string_views(r@)
                    + split_lines_spec(s@.skip(j + 1)));
            } else {
                assert(split_lines_spec(suffix) == seq![strip_cr(suffix.take(ll))] + Seq::<
                    Seq<char>,
                >::empty());
                assert(split_lines_spec(suffix) =~= seq![strip_cr(suffix.take(ll))]);
                assert(s@.skip(len as int) =~= Seq::<char>::empty());
                assert(string_views(r0) + split_lines_spec(suffix) =~= string_views(r@)
                    + split_lines_spec(s@.skip(len as int)));
            }
        }
        if j < len {
            i = j + 1;
        } else {
            i = len;
        }
    }
    proof {
        assert(s@.skip(len as int) =~= Seq::<char>::empty());
        assert(string_views(r@) + split_lines_spec(s@.skip(len as int)) =~= string_views(r@));
    }
    r
}

/// Whether `s` occurs among `items`.
pub fn contains_string(items: &Vec<String>, s: &str) -> (r: bool)
    ensures
        r == string_views(items@).contains(s@),
{
    let len = items.len();
    let mut i: usize = 0;
    while i < len
        invariant
            len == items@.len(),
            i <= len,
            forall|j: int| 0 <= j < i ==> string_views(items@)[j] != s@,
        decreases len - i,
    {
        if str_eq(items[i].as_str(), s) {
            proof {
                assert(string_views(items@)[i as int] == s@);
            }
            return true;
        }
        i += 1;
    }
    proof {
        if string_views(items@).contains(s@) {
            let j = choose|j: int|
                0 <= j < string_views(items@).len() && string_views(items@)[j] == s@;
            assert(false);
        }
    }
    false
}

/// Number of leading whitespace characters of `s`.
pub open spec fn ws_prefix_len(s: Seq<char>) -> nat
    decreases s.len(),
{
    if s.len() == 0 || !is_ws(s[0]) {
        0
    } else {
        1 + ws_prefix_len(s.drop_first())
    }
}

pub proof fn lemma_ws_prefix_len(s: Seq<char>)
    ensures
        ws_prefix_len(s) <= s.len(),
        forall|k: int| 0 <= k < ws_prefix_len(s) ==> is_ws(s[k]),
        ws_prefix_len(s) < s.len() ==> !is_ws(s[ws_prefix_len(s) as int]),
    decreases s.len(),
{
    if s.len() > 0 && is_ws(s[0]) {
        lemma_ws_prefix_len(s.drop_first());
        assert(forall|k: int| 0 <= k < s.len() - 1 ==> #[trigger] s.drop_first()[k] == s[k + 1]);
        assert forall|k: int| 0 <= k < ws_prefix_len(s) implies is_ws(s[k]) by {
            if k >= 1 {
                assert(is_ws(s.drop_first()[k - 1]));
            }
        }
    }
}

/// Number of trailing whitespace characters of `s`.
pub open spec fn ws_suffix_len(s: Seq<char>) -> nat
    decreases s.len(),
{
    if s.len() == 0 || !is_ws(s.last()) {
        0
    } else {
        1 + ws_suffix_len(s.drop_last())
    }
}

pub proof fn lemma_ws_suffix_len(s: Seq<char>)
    ensures
        ws_suffix_len(s) <= s.len(),
        forall|k: int| s.len() - ws_suffix_len(s) <= k < s.len() ==> is_ws(s[k]),
        ws_suffix_len(s) < s.len() ==> !is_ws(s[s.len() - ws_suffix_len(s) - 1]),
    decreases s.len(),
{
    if s.len() > 0 && is_ws(s.last()) {
        lemma_ws_suffix_len(s.drop_last());
        assert(forall|k: int| 0 <= k < s.len() - 1 ==> #[trigger] s.drop_last()[k] == s[k]);
        assert forall|k: int| s.len() - ws_suffix_len(s) <= k < s.len() implies is_ws(s[k]) by {
            if k < s.len() - 1 {
                assert(is_ws(s.drop_last()[k]));
            }
        }
    }
}

/// `s` without leading and trailing whitespace.
pub open spec fn trim_spec(s: Seq<char>) -> Seq<char> {
    let f = s.skip(ws_prefix_len(s) as int);
    f.take(f.len() - ws_suffix_len(f))
}

/// Trims ASCII whitespace from both ends.
pub fn trim_exec(s: &str) -> (r: &str)
    ensures
        r@ == trim_spec(s@),
{
    let len = s.unicode_len();
    let mut a: usize = 0;
    while a < len && is_ws_exec(s.get_char(a))
        invariant
            len == s@.len(),
            a <= len,
            forall|k: int| 0 <= k < a ==> is_ws(s@[k]),
        decreases len - a,
    {
        a += 1;
    }
    proof {
        lemma_ws_prefix_len(s@);
        let p = ws_prefix_len(s@) as int;
        if p < a {
            assert(!is_ws(s@[p]));
            assert(is_ws(s@[p]));
        }
        if p > a {
            assert(a < len);
            assert(is_ws(s@[a as int]));
            assert(!is_ws(s@[a as int]));
        }
        assert(p == a);
    }
    let mut b: usize = len;
    while b > a && is_ws_exec(s.get_char(b - 1))
        invariant
            len == s@.len(),
            a <= b <= len,
            forall|k: int| b <= k < len ==> is_ws(s@[k]),
        decreases b,
    {
        b -= 1;
    }
    proof {
        let f = s@.skip(a as int);
        assert(forall|k: int| 0 <= k < f.len() ==> #[trigger] f[k] == s@[a + k]);
        lemma_ws_suffix_len(f);
        let q = f.len() - ws_suffix_len(f);
        // q is the boundary (within f) after which everything is
        // whitespace; b - a is the same boundary found by scanning.
        if q < b - a {
            assert(is_ws(f[b - a - 1]));
            assert(b > a);
            assert(!is_ws(s@[b - 1]));
            assert(false);
        }
        if q > b - a {
            assert(ws_suffix_len(f) < f.len());
            assert(!is_ws(f[q - 1]));
            assert(b <= a + q - 1 < len);
            assert(is_ws(s@[a + q - 1]));
            assert(false);
        }
        assert(q == b - a);
    }
    let r = s.substring_char(a, b);
    proof {
        let f = s@.skip(a as int);
        assert(r@ =~= f.take(f.len() - ws_suffix_len(f)));
    }
    r
}

/// Index of the first occurrence of the two-character sequence `c1 c2` in
/// `s`, or `-1`.
pub open spec fn find2(s: Seq<char>, c1: char, c2: char) -> int
    decreases s.len(),
{
    if s.len() < 2 {
        -1
    } else if s[0] == c1 && s[1] == c2 {
        0
    } else {
        let r = find2(s.drop_first(), c1, c2);
        if r < 0 {
            -1
        } else {
            r + 1
        }
    }
}

pub proof fn lemma_find2(s: Seq<char>, c1: char, c2: char)
    ensures
        find2(s, c1, c2) >= 0 ==> 0 <= find2(s, c1, c2) < s.len() - 1 && s[find2(s, c1, c2)] == c1
            && s[find2(s, c1, c2) + 1] == c2,
        forall|j: int| #![trigger s[j]] 0 <= j < find2(s, c1, c2) ==> !(s[j] == c1 && s[j + 1]
            == c2),
        find2(s, c1, c2) < 0 ==> forall|j: int|
            #![trigger s[j]]
            0 <= j < s.len() - 1 ==> !(s[j] == c1 && s[j + 1] == c2),
    decreases s.len(),
{
    if s.len() >= 2 && !(s[0] == c1 && s[1] == c2) {
        lemma_find2(s.drop_first(), c1, c2);
        assert(forall|k: int| 0 <= k < s.len() - 1 ==> #[trigger] s.drop_first()[k] == s[k + 1]);
        assert forall|j: int| #![trigger s[j]] 0 <= j < find2(s, c1, c2) implies !(s[j] == c1 && s[
            j + 1] == c2) by {
            if j >= 1 {
                assert(!(s.drop_first()[j - 1] == c1 && s.drop_first()[j] == c2));
            }
        }
        if find2(s, c1, c2) < 0 {
            assert forall|j: int| #![trigger s[j]] 0 <= j < s.len() - 1 implies !(s[j] == c1 && s[
                j + 1] == c2) by {
                if j >= 1 {
                    assert(!(s.drop_first()[j - 1] == c1 && s.drop_first()[j] == c2));
                }
            }
        }
    }
}

/// Finds the first occurrence of the two-character sequence `c1 c2`.
pub fn find2_exec(s: &str, c1: char, c2: char) -> (r: Option<usize>)
    ensures
        match r {
            Some(i) => find2(s@, c1, c2) == i,
            None => find2(s@, c1, c2) < 0,
        },
{
    proof {
        lemma_find2(s@, c1, c2);
    }
    let len = s.unicode_len();
    if len < 2 {
        return None;
    }
    let mut j: usize = 0;
    while j < len - 1
        invariant
            len == s@.len(),
            len >= 2,
            j <= len - 1,
            forall|k: int| #![trigger s@[k]] 0 <= k < j ==> !(s@[k] == c1 && s@[k + 1] == c2),
        decreases len - j,
    {
        if s.get_char(j) == c1 && s.get_char(j + 1) == c2 {
            proof {
                lemma_find2(s@, c1, c2);
                let f = find2(s@, c1, c2);
                if f < 0 {
                    assert(!(s@[j as int] == c1 && s@[j + 1] == c2));
                }
                if 0 <= f < j {
                    assert(!(s@[f] == c1 && s@[f + 1] == c2));
                }
            }
            return Some(j);
        }
        j += 1;
    }
    proof {
        lemma_find2(s@, c1, c2);
        if find2(s@, c1, c2) >= 0 {
            let f = find2(s@, c1, c2);
            assert(!(s@[f] == c1 && s@[f + 1] == c2));
        }
    }
    None
}

/// Index of the first occurrence of `c` in `s`, or `-1`.
pub open spec fn find_char(s: Seq<char>, c: char) -> int
    decreases s.len(),
{
    if s.len() == 0 {
        -1
    } else if s[0] == c {
        0
    } else {
        let r = find_char(s.drop_first(), c);
        if r < 0 {
            -1
        } else {
            r + 1
        }
    }
}

pub proof fn lemma_find_char(s: Seq<char>, c: char)
    ensures
        find_char(s, c) >= 0 ==> 0 <= find_char(s, c) < s.len() && s[find_char(s, c)] == c,
        forall|j: int| 0 <= j < find_char(s, c) ==> s[j] != c,
        find_char(s, c) < 0 ==> forall|j: int| 0 <= j < s.len() ==> s[j] != c,
    decreases s.len(),
{
    if s.len() > 0 && s[0] != c {
        lemma_find_char(s.drop_first(), c);
        assert(forall|k: int| 0 <= k < s.len() - 1 ==> #[trigger] s.drop_first()[k] == s[k + 1]);
        assert forall|j: int| 0 <= j < find_char(s, c) implies s[j] != c by {
            if j >= 1 {
                assert(s.drop_first()[j - 1] != c);
            }
        }
        if find_char(s, c) < 0 {
            assert forall|j: int| 0 <= j < s.len() implies s[j] != c by {
                if j >= 1 {
                    assert(s.drop_first()[j - 1] != c);
                }
            }
        }
    }
}

/// Finds the first occurrence of `c`.
pub fn find_char_exec(s: &str, c: char) -> (r: Option<usize>)
    ensures
        match r {
            Some(i) => find_char(s@, c) == i,
            None => find_char(s@, c) < 0,
        },
{
    proof {
        lemma_find_char(s@, c);
    }
    let len = s.unicode_len();
    let mut j: usize = 0;
    while j < len
        invariant
            len == s@.len(),
            j <= len,
            forall|k: int| 0 <= k < j ==> s@[k] != c,
        decreases len - j,
    {
        if s.get_char(j) == c {
            proof {
                lemma_find_char(s@, c);
                let f = find_char(s@, c);
                if f < 0 {
                    assert(s@[j as int] != c);
                }
                if 0 <= f < j {
                    assert(s@[f] != c);
                }
            }
            return Some(j);
        }
        j += 1;
    }
    proof {
        lemma_find_char(s@, c);
        if find_char(s@, c) >= 0 {
            assert(s@[find_char(s@, c)] == c);
        }
    }
    None
}

/// A decimal digit.
pub open spec fn is_digit(c: char) -> bool {
    '0' <= c && c <= '9'
}

pub open spec fn digit_val(c: char) -> nat {
    (c as nat - '0' as nat) as nat
}

/// Value of a decimal digit string, most significant digit first.
pub open spec fn dec_val(s: Seq<char>) -> nat
    decreases s.len(),
{
    if s.len() == 0 {
        0
    } else {
        dec_val(s.drop_last()) * 10 + digit_val(s.last())
    }
}

pub open spec fn all_digits(s: Seq<char>) -> bool {
    forall|k: int| 0 <= k < s.len() ==> is_digit(#[trigger] s[k])
}

proof fn lemma_dec_val_mono(s: Seq<char>, k: int)
    requires
        0 <= k <= s.len(),
    ensures
        dec_val(s.take(k)) <= dec_val(s),
    decreases s.len() - k,
{
    if k < s.len() {
        assert(s.take(k + 1).drop_last() =~= s.take(k));
        assert(s.take(k + 1).last() == s[k]);
        assert(dec_val(s.take(k + 1)) == dec_val(s.take(k)) * 10 + digit_val(s[k]));
        assert(dec_val(s.take(k)) * 10 >= dec_val(s.take(k)));
        lemma_dec_val_mono(s, k + 1);
    } else {
        assert(s.take(k) =~= s);
    }
}

/// Parses an unsigned decimal number: succeeds exactly on nonempty
/// all-digit strings whose value fits the machine word.
pub fn parse_usize(s: &str) -> (r: Option<usize>)
    ensures
        match r {
            Some(v) => s@.len() > 0 && all_digits(s@) && v == dec_val(s@),
            None => s@.len() == 0 || !all_digits(s@) || dec_val(s@) > usize::MAX,
        },
{
    let len = s.unicode_len();
    if len == 0 {
        return None;
    }
    let mut acc: usize = 0;
    let mut i: usize = 0;
    proof {
        assert(s@.take(0) =~= Seq::<char>::empty());
    }
    while i < len
        invariant
            len == s@.len(),
            i <= len,
            forall|k: int| 0 <= k < i ==> is_digit(#[trigger] s@[k]),
            acc == dec_val(s@.take(i as int)),
        decreases len - i,
    {
        let c = s.get_char(i);
        if !(c >= '0' && c <= '9') {
            return None;
        }
        let d = (c as u32 - 48) as usize;
        proof {
            assert(s@.take(i + 1).drop_last() =~= s@.take(i as int));
            assert(s@.take(i + 1).last() == s@[i as int]);
            assert(d == digit_val(c));
        }
        let shifted = match acc.checked_mul(10) {
            Some(x) => x,
            None => {
                proof {
                    lemma_dec_val_mono(s@, i + 1);
                }
                return None;
            },
        };
        let next_acc = match shifted.checked_add(d) {
            Some(x) => x,
            None => {
                proof {
                    lemma_dec_val_mono(s@, i + 1);
                }
                return None;
            },
        };
        acc = next_acc;
        i += 1;
    }
    proof {
        assert(s@.take(len as int) =~= s@);
    }
    Some(acc)
}

/// Decimal digit string of `n`, most significant digit first.
pub open spec fn dec_str(n: nat) -> Seq<char>
    decreases n,
{
    if n < 10 {
        seq![digit_char(n)]
    } else {
        dec_str(n / 10).push(digit_char(n % 10))
    }
}

pub open spec fn digit_char(d: nat) -> char {
    ((d + 0x30) as u8) as char
}

/// Appends the decimal representation of `n` to `out`.
pub fn push_dec(n: u128, out: &mut String)
    ensures
        final(out)@ == old(out)@ + dec_str(n as nat),
    decreases n,
{
    if n >= 10 {
        push_dec(n / 10, out);
    }
    let d = n % 10;
    proof {
        reveal_strlit("0");
        reveal_strlit("1");
        reveal_strlit("2");
        reveal_strlit("3");
        reveal_strlit("4");
        reveal_strlit("5");
        reveal_strlit("6");
        reveal_strlit("7");
        reveal_strlit("8");
        reveal_strlit("9");
    }
    let ghost out_mid = out@;
    if d == 0 {
        out.append("0");
    } else if d == 1 {
        out.append("1");
    } else if d == 2 {
        out.append("2");
    } else if d == 3 {
        out.append("3");
    } else if d == 4 {
        out.append("4");
    } else if d == 5 {
        out.append("5");
    } else if d == 6 {
        out.append("6");
    } else if d == 7 {
        out.append("7");
    } else if d == 8 {
        out.append("8");
    } else {
        out.append("9");
    }
    proof {
        if n >= 10 {
            assert(out@ =~= old(out)@ + dec_str((n / 10) as nat).push(digit_char((n % 10) as nat)));
        } else {
            assert(out@ =~= old(out)@ + seq![digit_char(n as nat)]);
        }
    }
}

} // verus!

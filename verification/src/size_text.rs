use vstd::prelude::*;

verus! {

/// Whether a character is white space as `str::trim` takes it: the
/// characters with the Unicode White_Space property.
pub open spec fn is_white_space(c: char) -> bool {
    let x = c as u32;
    ||| 0x09 <= x <= 0x0d
    ||| x == 0x20
    ||| x == 0x85
    ||| x == 0xa0
    ||| x == 0x1680
    ||| 0x2000 <= x <= 0x200a
    ||| x == 0x2028
    ||| x == 0x2029
    ||| x == 0x202f
    ||| x == 0x205f
    ||| x == 0x3000
}

/// The text without its leading white space.
pub open spec fn trim_start(s: Seq<char>) -> Seq<char>
    decreases s.len(),
{
    if s.len() > 0 && is_white_space(s[0]) {
        trim_start(s.drop_first())
    } else {
        s
    }
}

/// The text without its trailing white space.
pub open spec fn trim_end(s: Seq<char>) -> Seq<char>
    decreases s.len(),
{
    if s.len() > 0 && is_white_space(s.last()) {
        trim_end(s.drop_last())
    } else {
        s
    }
}

/// The text without its leading and trailing white space.
pub open spec fn trimmed(s: Seq<char>) -> Seq<char> {
    trim_end(trim_start(s))
}

/// The text with every space removed.
pub open spec fn without_spaces(s: Seq<char>) -> Seq<char>
    decreases s.len(),
{
    if s.len() == 0 {
        s
    } else {
        without_spaces(s.drop_last()) + if s.last() == ' ' {
            Seq::empty()
        } else {
            seq![s.last()]
        }
    }
}

/// Whether every character of the text is ASCII.
pub open spec fn all_ascii(s: Seq<char>) -> bool {
    forall|k: int| 0 <= k < s.len() ==> (#[trigger] s[k] as u32) < 128
}

/// The ASCII upper case of a character: `a`..`z` become `A`..`Z`, everything
/// else stays.
pub open spec fn ascii_upper(c: char) -> char {
    if 'a' as u32 <= c as u32 <= 'z' as u32 {
        (c as u32 - 32) as char
    } else {
        c
    }
}

/// The ASCII upper case of a text.
pub open spec fn ascii_uppercase(s: Seq<char>) -> Seq<char> {
    Seq::new(s.len(), |k: int| ascii_upper(s[k]))
}

/// Names what `str::to_uppercase` returns: the text with every character
/// mapped to its Unicode upper case.
pub uninterp spec fn uppercased(s: Seq<char>) -> Seq<char>;

/// `str::to_uppercase`: the contract says that the result is what
/// `uppercased` names for the text, and that an ASCII text gets its ASCII
/// upper case; Unicode upper-casing of other characters is left unstated.
#[verifier::external_body]
fn uppercase_text(s: &str) -> (r: String)
    ensures
        r@ == uppercased(s@),
        all_ascii(s@) ==> r@ == ascii_uppercase(s@),
{
    s.to_uppercase()
}

/// Whether `str::trim` takes the character for white space.
fn white_space(c: char) -> (r: bool)
    ensures
        r == is_white_space(c),
{
    let x = c as u32;
    (0x09 <= x && x <= 0x0d) || x == 0x20 || x == 0x85 || x == 0xa0 || x == 0x1680 || (0x2000 <= x
        && x <= 0x200a) || x == 0x2028 || x == 0x2029 || x == 0x202f || x == 0x205f || x == 0x3000
}

/// The text without its leading and trailing white space (see `trimmed`).
pub fn trim_text<'a>(s: &'a str) -> (r: &'a str)
    ensures
        r@ == trimmed(s@),
{
    let n = s.unicode_len();
    let mut a: usize = 0;
    proof {
        assert(s@.subrange(0, n as int) =~= s@);
    }
    while a < n && white_space(s.get_char(a))
        invariant
            n == s@.len(),
            a <= n,
            trim_start(s@) == trim_start(s@.subrange(a as int, n as int)),
        decreases n - a,
    {
        proof {
            assert(s@.subrange(a + 1, n as int) =~= s@.subrange(a as int, n as int).drop_first());
        }
        a = a + 1;
    }
    proof {
        if a < n {
            assert(s@.subrange(a as int, n as int)[0] == s@[a as int]);
        }
    }
    let mut b: usize = n;
    while b > a && white_space(s.get_char(b - 1))
        invariant
            n == s@.len(),
            a <= b <= n,
            trim_start(s@) == s@.subrange(a as int, n as int),
            trim_end(s@.subrange(a as int, n as int)) == trim_end(s@.subrange(a as int, b as int)),
        decreases b - a,
    {
        proof {
            assert(s@.subrange(a as int, b - 1) =~= s@.subrange(a as int, b as int).drop_last());
        }
        b = b - 1;
    }
    proof {
        if b > a {
            assert(s@.subrange(a as int, b as int).last() == s@[b - 1]);
        }
    }
    s.substring_char(a, b)
}

/// The text with every space removed (see `without_spaces`).
pub fn remove_spaces(s: &str) -> (r: String)
    ensures
        r@ == without_spaces(s@),
{
    let n = s.unicode_len();
    let mut r = String::new();
    let mut k: usize = 0;
    while k < n
        invariant
            n == s@.len(),
            k <= n,
            r@ == without_spaces(s@.take(k as int)),
        decreases n - k,
    {
        let c = s.get_char(k);
        proof {
            assert(s@.take(k + 1).drop_last() =~= s@.take(k as int));
            assert(s@.take(k + 1).last() == c);
        }
        if c != ' ' {
            let one = s.substring_char(k, k + 1);
            proof {
                assert(one@ =~= seq![c]);
            }
            r.append(one);
        } else {
            proof {
                assert(r@ =~= r@ + Seq::<char>::empty());
            }
        }
        k = k + 1;
    }
    proof {
        assert(s@.take(n as int) =~= s@);
    }
    r
}

/// Trimming keeps an ASCII text ASCII.
proof fn lemma_trimmed_ascii(s: Seq<char>)
    ensures
        all_ascii(s) ==> all_ascii(trimmed(s)),
{
    lemma_trim_start_ascii(s);
    lemma_trim_end_ascii(trim_start(s));
}

/// Trimming the start keeps an ASCII text ASCII.
proof fn lemma_trim_start_ascii(s: Seq<char>)
    ensures
        all_ascii(s) ==> all_ascii(trim_start(s)),
    decreases s.len(),
{
    if s.len() > 0 && is_white_space(s[0]) {
        if all_ascii(s) {
            assert forall|k: int| 0 <= k < s.drop_first().len() implies (#[trigger] s.drop_first()[k]
                as u32) < 128 by {
                assert(s.drop_first()[k] == s[k + 1]);
            }
        }
        lemma_trim_start_ascii(s.drop_first());
    }
}

/// Trimming the end keeps an ASCII text ASCII.
proof fn lemma_trim_end_ascii(s: Seq<char>)
    ensures
        all_ascii(s) ==> all_ascii(trim_end(s)),
    decreases s.len(),
{
    if s.len() > 0 && is_white_space(s.last()) {
        if all_ascii(s) {
            assert forall|k: int| 0 <= k < s.drop_last().len() implies (#[trigger] s.drop_last()[k]
                as u32) < 128 by {
                assert(s.drop_last()[k] == s[k]);
            }
        }
        lemma_trim_end_ascii(s.drop_last());
    }
}

/// The text of a size as it is read: trimmed, in upper case, without spaces.
pub open spec fn normalized_size_text(s: Seq<char>) -> Seq<char> {
    without_spaces(uppercased(trimmed(s)))
}

/// Whether `t` ends with `suffix`.
pub open spec fn ends_with(t: Seq<char>, suffix: Seq<char>) -> bool {
    suffix.len() <= t.len() && t.skip(t.len() - suffix.len()) == suffix
}

/// The unit that a normalized size text ends with, as the length of its
/// symbol and the bytes it stands for: GB, MB, KB or B, tested in that order.
/// The units are decimal; a binary symbol such as GIB ends with B and so
/// reads as bytes, its number keeping the letters before the B.
pub open spec fn unit_suffix(t: Seq<char>) -> Option<(nat, u64)> {
    if ends_with(t, seq!['G', 'B']) {
        Some((2nat, 1_000_000_000u64))
    } else if ends_with(t, seq!['M', 'B']) {
        Some((2nat, 1_000_000u64))
    } else if ends_with(t, seq!['K', 'B']) {
        Some((2nat, 1_000u64))
    } else if ends_with(t, seq!['B']) {
        Some((1nat, 1u64))
    } else {
        None
    }
}

/// A size text split into its number and the bytes its unit stands for.
pub struct SizeText {
    /// The number in front of the unit, trimmed; it is not yet read.
    pub number: String,
    /// How many bytes the unit stands for.
    pub unit: u64,
}

/// A size text that ends with no known unit.
pub struct SizeFormatError {
    /// The normalized text.
    pub text: String,
}

/// The normalized text of a size (see `normalized_size_text`).
pub fn normalize_size_text(s: &str) -> (r: String)
    ensures
        r@ == normalized_size_text(s@),
        all_ascii(s@) ==> normalized_size_text(s@) == without_spaces(ascii_uppercase(trimmed(s@))),
{
    proof {
        lemma_trimmed_ascii(s@);
    }
    let t = trim_text(s);
    let u = uppercase_text(t);
    remove_spaces(u.as_str())
}

/// Whether `t` ends with the characters `a` then `b`.
fn ends_with_two(t: &str, a: char, b: char) -> (r: bool)
    ensures
        r == ends_with(t@, seq![a, b]),
{
    let n = t.unicode_len();
    if n < 2 {
        return false;
    }
    let r = t.get_char(n - 2) == a && t.get_char(n - 1) == b;
    proof {
        if r {
            assert(t@.skip(n - 2) =~= seq![a, b]);
        } else {
            assert(t@.skip(n - 2)[0] == t@[n - 2]);
            assert(t@.skip(n - 2)[1] == t@[n - 1]);
        }
    }
    r
}

/// The unit that a normalized size text ends with (see `unit_suffix`).
pub fn size_unit_suffix(t: &str) -> (r: Option<(usize, u64)>)
    ensures
        match unit_suffix(t@) {
            None => r is None,
            Some((k, unit)) => r == Some((k as usize, unit)),
        },
{
    if ends_with_two(t, 'G', 'B') {
        Some((2, 1_000_000_000))
    } else if ends_with_two(t, 'M', 'B') {
        Some((2, 1_000_000))
    } else if ends_with_two(t, 'K', 'B') {
        Some((2, 1_000))
    } else {
        let n = t.unicode_len();
        if n >= 1 && t.get_char(n - 1) == 'B' {
            proof {
                assert(t@.skip(n - 1) =~= seq!['B']);
            }
            Some((1, 1))
        } else {
            proof {
                if n >= 1 {
                    assert(t@.skip(n - 1)[0] == t@[n - 1]);
                }
            }
            None
        }
    }
}

/// Reads a size text such as "10MB" or "1.5 gb": normalizes it, takes the
/// unit off its end, and trims the number in front of it. Fails, with the
/// normalized text, when the text ends with no known unit.
pub fn parse_size_text(s: &str) -> (r: Result<SizeText, SizeFormatError>)
    ensures
        ({
            let t = normalized_size_text(s@);
            match unit_suffix(t) {
                None => r matches Err(e) && e.text@ == t,
                Some((k, unit)) => r matches Ok(st) && st.unit == unit && st.number@ == trimmed(
                    t.take(t.len() - k),
                ),
            }
        }),
        all_ascii(s@) ==> normalized_size_text(s@) == without_spaces(ascii_uppercase(trimmed(s@))),
{
    let t = normalize_size_text(s);
    match size_unit_suffix(t.as_str()) {
        None => Err(SizeFormatError { text: t }),
        Some((k, unit)) => {
            let n = t.as_str().unicode_len();
            let rest = t.as_str().substring_char(0, n - k);
            let number = trim_text(rest).to_owned();
            Ok(SizeText { number, unit })
        },
    }
}

/// Leading white space does not change what is left after trimming the start.
proof fn lemma_trim_start_skips(a: Seq<char>, y: Seq<char>)
    requires
        forall|k: int| 0 <= k < a.len() ==> is_white_space(#[trigger] a[k]),
    ensures
        trim_start(a + y) == trim_start(y),
    decreases a.len(),
{
    if a.len() > 0 {
        assert((a + y).drop_first() =~= a.drop_first() + y);
        assert((a + y)[0] == a[0]);
        lemma_trim_start_skips(a.drop_first(), y);
    } else {
        assert(a + y =~= y);
    }
}

/// Trailing white space does not change what is left after trimming the end.
proof fn lemma_trim_end_skips(x: Seq<char>, b: Seq<char>)
    requires
        forall|k: int| 0 <= k < b.len() ==> is_white_space(#[trigger] b[k]),
    ensures
        trim_end(x + b) == trim_end(x),
    decreases b.len(),
{
    if b.len() > 0 {
        assert((x + b).drop_last() =~= x + b.drop_last());
        assert((x + b).last() == b.last());
        lemma_trim_end_skips(x, b.drop_last());
    } else {
        assert(x + b =~= x);
    }
}

/// Trailing white space does not change the trimmed text.
proof fn lemma_trimmed_end(x: Seq<char>, b: Seq<char>)
    requires
        forall|k: int| 0 <= k < b.len() ==> is_white_space(#[trigger] b[k]),
    ensures
        trimmed(x + b) == trimmed(x),
    decreases x.len(),
{
    if x.len() == 0 {
        lemma_trim_start_skips(b, Seq::empty());
        assert(b + Seq::<char>::empty() =~= b);
        assert(x + b =~= b);
    } else if is_white_space(x[0]) {
        assert((x + b).drop_first() =~= x.drop_first() + b);
        assert((x + b)[0] == x[0]);
        lemma_trimmed_end(x.drop_first(), b);
    } else {
        assert((x + b)[0] == x[0]);
        lemma_trim_end_skips(x, b);
    }
}

/// White space around a size text does not change how it is read.
pub proof fn law_surrounding_white_space(a: Seq<char>, s: Seq<char>, b: Seq<char>)
    requires
        forall|k: int| 0 <= k < a.len() ==> is_white_space(#[trigger] a[k]),
        forall|k: int| 0 <= k < b.len() ==> is_white_space(#[trigger] b[k]),
    ensures
        normalized_size_text(a + s + b) == normalized_size_text(s),
{
    lemma_trim_start_skips(a, s + b);
    assert(a + s + b =~= a + (s + b));
    lemma_trimmed_end(s, b);
}

} // verus!

//! Characters and names: the Unicode white space that `char::is_whitespace`
//! recognises, ASCII case folding and the normalisation names are looked up
//! by.

use vstd::prelude::*;
use vstd::string::StrSliceExecFns;

verus! {

/// Unicode `White_Space`, the property `char::is_whitespace` tests.
pub open spec fn is_white_space(c: char) -> bool {
    let u = c as u32;
    ||| 0x9 <= u <= 0xD
    ||| u == 0x20
    ||| u == 0x85
    ||| u == 0xA0
    ||| u == 0x1680
    ||| 0x2000 <= u <= 0x200A
    ||| u == 0x2028
    ||| u == 0x2029
    ||| u == 0x202F
    ||| u == 0x205F
    ||| u == 0x3000
}

/// `char::is_whitespace`.
pub fn white_space(c: char) -> (r: bool)
    ensures
        r == is_white_space(c),
{
    let u = c as u32;
    (0x9 <= u && u <= 0xD) || u == 0x20 || u == 0x85 || u == 0xA0 || u == 0x1680 || (0x2000 <= u
        && u <= 0x200A) || u == 0x2028 || u == 0x2029 || u == 0x202F || u == 0x205F || u == 0x3000
}

/// `char::to_ascii_lowercase`: `A..=Z` to `a..=z`, everything else as it is.
pub open spec fn ascii_lower(c: char) -> char {
    if 'A' <= c <= 'Z' {
        ((c as u32) + 32) as char
    } else {
        c
    }
}

/// `char::to_ascii_lowercase`.
pub fn lower(c: char) -> (r: char)
    ensures
        r == ascii_lower(c),
{
    if 'A' <= c && c <= 'Z' {
        let b = c as u8;
        assert(b as u32 == c as u32);
        ((b + 32) as char)
    } else {
        c
    }
}

/// The text without its leading white space.
pub open spec fn trim_start(s: Seq<char>) -> Seq<char>
    decreases s.len(),
{
    if s.len() > 0 && is_white_space(s[0]) {
        trim_start(s.drop_first())
    } else {
        s
    }
}

/// The text without its trailing white space.
pub open spec fn trim_end(s: Seq<char>) -> Seq<char>
    decreases s.len(),
{
    if s.len() > 0 && is_white_space(s.last()) {
        trim_end(s.drop_last())
    } else {
        s
    }
}

/// `str::trim`.
pub open spec fn trimmed(s: Seq<char>) -> Seq<char> {
    trim_end(trim_start(s))
}

/// The text with every character of `dropped` taken out.
pub open spec fn without(s: Seq<char>, dropped: Seq<char>) -> Seq<char>
    decreases s.len(),
{
    if s.len() == 0 {
        s
    } else if dropped.contains(s.last()) {
        without(s.drop_last(), dropped)
    } else {
        without(s.drop_last(), dropped).push(s.last())
    }
}

/// What a name is looked up by: trimmed, in ASCII lower case, with the
/// separator characters `dropped` taken out.
pub open spec fn lookup_key(s: Seq<char>, dropped: Seq<char>) -> Seq<char> {
    without(trimmed(s).map_values(|c: char| ascii_lower(c)), dropped)
}

/// The characters of a string.
pub fn chars_of(s: &str) -> (v: Vec<char>)
    ensures
        v@ == s@,
{
    let n = s.unicode_len();
    let mut v: Vec<char> = Vec::new();
    let mut i: usize = 0;
    while i < n
        invariant
            i <= n,
            n == s@.len(),
            v@ == s@.take(i as int),
        decreases n - i,
    {
        v.push(s.get_char(i));
        assert(s@.take(i + 1) =~= s@.take(i as int).push(s@[i as int]));
        i = i + 1;
    }
    assert(s@.take(i as int) =~= s@);
    v
}

/// Whether a list of characters spells out a string.
pub fn spells(v: &Vec<char>, s: &str) -> (r: bool)
    ensures
        r == (v@ == s@),
{
    let w = chars_of(s);
    if v.len() != w.len() {
        return false;
    }
    let mut i: usize = 0;
    while i < v.len()
        invariant
            i <= v@.len(),
            v@.len() == w@.len(),
            w@ == s@,
            v@.take(i as int) == w@.take(i as int),
        decreases v@.len() - i,
    {
        if v[i] != w[i] {
            return false;
        }
        assert(v@.take(i + 1) =~= v@.take(i as int).push(v@[i as int]));
        assert(w@.take(i + 1) =~= w@.take(i as int).push(w@[i as int]));
        i = i + 1;
    }
    assert(v@ =~= v@.take(i as int));
    assert(w@ =~= w@.take(i as int));
    true
}

/// The key a name is looked up by: `name.trim().to_ascii_lowercase()` with
/// the characters of `dropped` removed.
pub fn lookup_key_of(name: &str, dropped: &str) -> (key: Vec<char>)
    ensures
        key@ == lookup_key(name@, dropped@),
{
    let chars = chars_of(name);
    let drop = chars_of(dropped);
    let mut start: usize = 0;
    assert(chars@.skip(0) =~= chars@);
    while start < chars.len() && white_space(chars[start])
        invariant
            start <= chars@.len(),
            trim_start(chars@) == trim_start(chars@.skip(start as int)),
        decreases chars@.len() - start,
    {
        assert(chars@.skip(start as int).drop_first() =~= chars@.skip(start + 1));
        start = start + 1;
    }
    let mut end: usize = chars.len();
    assert(trim_start(chars@) == chars@.subrange(start as int, end as int)) by {
        assert(chars@.skip(start as int) =~= chars@.subrange(start as int, end as int));
    }
    while end > start && white_space(chars[end - 1])
        invariant
            start <= end <= chars@.len(),
            trimmed(chars@) == trim_end(chars@.subrange(start as int, end as int)),
        decreases end,
    {
        assert(chars@.subrange(start as int, end as int).drop_last() =~= chars@.subrange(start as int, end - 1));
        end = end - 1;
    }
    let ghost core = chars@.subrange(start as int, end as int);
    assert(trimmed(chars@) == core);
    let ghost lowered = core.map_values(|c: char| ascii_lower(c));
    let mut key: Vec<char> = Vec::new();
    let mut i: usize = start;
    while i < end
        invariant
            start <= i <= end <= chars@.len(),
            core == chars@.subrange(start as int, end as int),
            lowered == core.map_values(|c: char| ascii_lower(c)),
            drop@ == dropped@,
            key@ == without(lowered.take(i - start), dropped@),
        decreases end - i,
    {
        let c = lower(chars[i]);
        let mut keep = true;
        let mut j: usize = 0;
        while j < drop.len()
            invariant
                j <= drop@.len(),
                keep == (forall|w: int| 0 <= w < j ==> #[trigger] drop@[w] != c),
            decreases drop@.len() - j,
        {
            if drop[j] == c {
                keep = false;
            }
            j = j + 1;
        }
        proof {
            if !keep {
                let w = choose|w: int| 0 <= w < j && !(#[trigger] drop@[w] != c);
                assert(drop@.contains(c));
            }
            if drop@.contains(c) {
                let w = choose|w: int| 0 <= w < drop@.len() && #[trigger] drop@[w] == c;
                assert(drop@[w] == c);
            }
        }
        proof {
            let t = lowered.take(i + 1 - start);
            assert(t.drop_last() =~= lowered.take(i - start));
            assert(t.last() == c);
        }
        if keep {
            key.push(c);
        }
        i = i + 1;
    }
    proof {
        assert(lowered.take(i - start) =~= lowered);
    }
    key
}

/// The digit character for `d`, which is below ten.
pub open spec fn digit_char(d: nat) -> char {
    ((d + 48) as u8) as char
}

/// The decimal notation of a natural number, without leading zeros.
pub open spec fn decimal_text(n: nat) -> Seq<char>
    decreases n,
{
    if n < 10 {
        seq![digit_char(n)]
    } else {
        decimal_text(n / 10).push(digit_char(n % 10))
    }
}

/// The text of the digit `d`.
fn digit_str(d: u8) -> (s: &'static str)
    requires
        d < 10,
    ensures
        s@ == seq![digit_char(d as nat)],
{
    proof {
        reveal_strlit("0");
        reveal_strlit("1");
        reveal_strlit("2");
        reveal_strlit("3");
        reveal_strlit("4");
        reveal_strlit("5");
        reveal_strlit("6");
        reveal_strlit("7");
        reveal_strlit("8");
        reveal_strlit("9");
    }
    let s = match d {
        0 => "0",
        1 => "1",
        2 => "2",
        3 => "3",
        4 => "4",
        5 => "5",
        6 => "6",
        7 => "7",
        8 => "8",
        _ => "9",
    };
    assert(s@ =~= seq![digit_char(d as nat)]);
    s
}

/// The decimal notation of `n`, as `n.to_string()` writes it.
pub fn decimal_string(n: u64) -> (s: String)
    ensures
        s@ == decimal_text(n as nat),
    decreases n,
{
    let d: u8 = (n % 10) as u8;
    if n < 10 {
        String::from_str(digit_str(d))
    } else {
        let mut out = decimal_string(n / 10);
        out.append(digit_str(d));
        out
    }
}

/// Whether two character lists are the same.
pub fn same_chars(a: &Vec<char>, b: &Vec<char>) -> (r: bool)
    ensures
        r == (a@ == b@),
{
    if a.len() != b.len() {
        return false;
    }
    let mut i: usize = 0;
    while i < a.len()
        invariant
            i <= a@.len(),
            a@.len() == b@.len(),
            a@.take(i as int) == b@.take(i as int),
        decreases a@.len() - i,
    {
        if a[i] != b[i] {
            assert(a@[i as int] != b@[i as int]);
            return false;
        }
        assert(a@.take(i + 1) =~= a@.take(i as int).push(a@[i as int]));
        assert(b@.take(i + 1) =~= b@.take(i as int).push(b@[i as int]));
        i = i + 1;
    }
    assert(a@ =~= a@.take(i as int));
    assert(b@ =~= b@.take(i as int));
    true
}

/// A name with no white space at either end is its own trimmed form.
pub proof fn lemma_trim_plain(s: Seq<char>)
    requires
        s.len() > 0,
        !is_white_space(s[0]),
        !is_white_space(s.last()),
    ensures
        trimmed(s) == s,
{
}

/// Folding the case of a name without capitals changes nothing.
pub proof fn lemma_lower_plain(s: Seq<char>)
    requires
        forall|i: int| 0 <= i < s.len() ==> !('A' <= #[trigger] s[i] <= 'Z'),
    ensures
        s.map_values(|c: char| ascii_lower(c)) == s,
{
    assert(s.map_values(|c: char| ascii_lower(c)) =~= s);
}

/// Taking characters out of a concatenation takes them out of each part.
pub proof fn lemma_without_concat(a: Seq<char>, b: Seq<char>, dropped: Seq<char>)
    ensures
        without(a + b, dropped) == without(a, dropped) + without(b, dropped),
    decreases b.len(),
{
    if b.len() == 0 {
        assert(a + b =~= a);
        assert(without(a, dropped) + without(b, dropped) =~= without(a, dropped));
    } else {
        lemma_without_concat(a, b.drop_last(), dropped);
        assert((a + b).drop_last() =~= a + b.drop_last());
        assert((a + b).last() == b.last());
        if dropped.contains(b.last()) {
        } else {
            assert(without(a + b, dropped) =~= without(a, dropped) + without(b, dropped));
        }
    }
}

/// A name none of whose characters are dropped keeps all of them.
pub proof fn lemma_without_none(s: Seq<char>, dropped: Seq<char>)
    requires
        forall|i: int| 0 <= i < s.len() ==> !dropped.contains(#[trigger] s[i]),
    ensures
        without(s, dropped) == s,
    decreases s.len(),
{
    if s.len() > 0 {
        lemma_without_none(s.drop_last(), dropped);
        assert(without(s.drop_last(), dropped).push(s.last()) =~= s);
    }
}

/// Lower case letters and digits.
pub open spec fn plain(s: Seq<char>) -> bool {
    forall|i: int| 0 <= i < s.len() ==> ('a' <= #[trigger] s[i] <= 'z' || '0' <= s[i] <= '9')
}

/// Whether a character is a lower case letter or a digit.
pub open spec fn plain_char(c: char) -> bool {
    'a' <= c <= 'z' || '0' <= c <= '9'
}

/// A plain name holds none of the separators, when no separator is a lower
/// case letter or a digit.
pub proof fn lemma_plain_not_separator(s: Seq<char>, dropped: Seq<char>)
    requires
        plain(s),
        forall|j: int| 0 <= j < dropped.len() ==> !plain_char(#[trigger] dropped[j]),
    ensures
        forall|i: int| 0 <= i < s.len() ==> !dropped.contains(#[trigger] s[i]),
{
    assert forall|i: int| 0 <= i < s.len() implies !dropped.contains(#[trigger] s[i]) by {
        if dropped.contains(s[i]) {
            let j = choose|j: int| 0 <= j < dropped.len() && dropped[j] == s[i];
            assert(!plain_char(dropped[j]));
        }
    }
}

/// A name of letters and digits is looked up as it is, when none of them
/// is a separator.
pub proof fn lemma_plain_key(s: Seq<char>, dropped: Seq<char>)
    requires
        s.len() > 0,
        plain(s),
        forall|i: int| 0 <= i < s.len() ==> !dropped.contains(#[trigger] s[i]),
    ensures
        lookup_key(s, dropped) == s,
{
    lemma_trim_plain(s);
    lemma_lower_plain(s);
    lemma_without_none(s, dropped);
}

/// A name of two plain words joined by an underscore is looked up as the
/// two words run together, when the underscore is a separator.
pub proof fn lemma_snake_key(a: Seq<char>, b: Seq<char>, dropped: Seq<char>)
    requires
        a.len() > 0,
        b.len() > 0,
        plain(a),
        plain(b),
        dropped.contains('_'),
        forall|i: int| 0 <= i < a.len() ==> !dropped.contains(#[trigger] a[i]),
        forall|i: int| 0 <= i < b.len() ==> !dropped.contains(#[trigger] b[i]),
    ensures
        lookup_key(a + seq!['_'] + b, dropped) == a + b,
{
    let u = seq!['_'];
    let n = a + u + b;
    assert(n[0] == a[0]);
    assert(n.last() == b.last());
    lemma_trim_plain(n);
    assert forall|i: int| 0 <= i < n.len() implies !('A' <= #[trigger] n[i] <= 'Z') by {
        if i < a.len() {
            assert(n[i] == a[i]);
        } else if i == a.len() {
            assert(n[i] == '_');
        } else {
            assert(n[i] == b[i - a.len() - 1]);
        }
    }
    lemma_lower_plain(n);
    lemma_without_concat(a + u, b, dropped);
    lemma_without_concat(a, u, dropped);
    assert(u.drop_last() =~= Seq::<char>::empty());
    assert(without(Seq::<char>::empty(), dropped) == Seq::<char>::empty());
    assert(without(u, dropped) =~= Seq::<char>::empty());
    lemma_without_none(a, dropped);
    lemma_without_none(b, dropped);
    assert(without(a, dropped) + without(u, dropped) =~= a);
}

/// Whether every character of a text is white space.
pub open spec fn all_white(w: Seq<char>) -> bool {
    forall|i: int| 0 <= i < w.len() ==> is_white_space(#[trigger] w[i])
}

/// The text in ASCII lower case.
pub open spec fn folded(s: Seq<char>) -> Seq<char> {
    s.map_values(|c: char| ascii_lower(c))
}

proof fn lemma_fold_keeps_space(c: char)
    ensures
        is_white_space(ascii_lower(c)) == is_white_space(c),
{
}

proof fn lemma_trim_start_folded(s: Seq<char>)
    ensures
        trim_start(folded(s)) == folded(trim_start(s)),
    decreases s.len(),
{
    if s.len() > 0 {
        lemma_fold_keeps_space(s[0]);
        assert(folded(s)[0] == ascii_lower(s[0]));
        if is_white_space(s[0]) {
            assert(folded(s).drop_first() =~= folded(s.drop_first()));
            lemma_trim_start_folded(s.drop_first());
        }
    }
}

proof fn lemma_trim_end_folded(s: Seq<char>)
    ensures
        trim_end(folded(s)) == folded(trim_end(s)),
    decreases s.len(),
{
    if s.len() > 0 {
        lemma_fold_keeps_space(s.last());
        assert(folded(s).last() == ascii_lower(s.last()));
        if is_white_space(s.last()) {
            assert(folded(s).drop_last() =~= folded(s.drop_last()));
            lemma_trim_end_folded(s.drop_last());
        }
    }
}

/// Case does not matter: two names that are the same once folded to lower
/// case are looked up by the same key.
pub proof fn law_lookup_ignores_case(s: Seq<char>, t: Seq<char>, dropped: Seq<char>)
    requires
        folded(s) == folded(t),
    ensures
        lookup_key(s, dropped) == lookup_key(t, dropped),
{
    lemma_trim_start_folded(s);
    lemma_trim_start_folded(t);
    lemma_trim_end_folded(trim_start(s));
    lemma_trim_end_folded(trim_start(t));
    assert(folded(trimmed(s)) == folded(trimmed(t)));
    assert(trimmed(s).map_values(|c: char| ascii_lower(c)) == folded(trimmed(s)));
    assert(trimmed(t).map_values(|c: char| ascii_lower(c)) == folded(trimmed(t)));
}

proof fn lemma_trim_start_past_space(w: Seq<char>, x: Seq<char>)
    requires
        all_white(w),
    ensures
        trim_start(w + x) == trim_start(x),
    decreases w.len(),
{
    if w.len() == 0 {
        assert(w + x =~= x);
    } else {
        assert((w + x)[0] == w[0]);
        assert((w + x).drop_first() =~= w.drop_first() + x);
        lemma_trim_start_past_space(w.drop_first(), x);
    }
}

proof fn lemma_trim_start_concat(s: Seq<char>, x: Seq<char>)
    ensures
        trim_start(s + x) == if trim_start(s).len() > 0 {
            trim_start(s) + x
        } else {
            trim_start(x)
        },
    decreases s.len(),
{
    if s.len() == 0 {
        assert(s + x =~= x);
    } else {
        assert((s + x)[0] == s[0]);
        if is_white_space(s[0]) {
            assert((s + x).drop_first() =~= s.drop_first() + x);
            lemma_trim_start_concat(s.drop_first(), x);
        }
    }
}

proof fn lemma_trim_end_past_space(x: Seq<char>, w: Seq<char>)
    requires
        all_white(w),
    ensures
        trim_end(x + w) == trim_end(x),
    decreases w.len(),
{
    if w.len() == 0 {
        assert(x + w =~= x);
    } else {
        assert((x + w).last() == w.last());
        assert((x + w).drop_last() =~= x + w.drop_last());
        lemma_trim_end_past_space(x, w.drop_last());
    }
}

/// White space around a name does not matter.
pub proof fn law_lookup_ignores_surrounding_space(
    s: Seq<char>,
    before: Seq<char>,
    after: Seq<char>,
    dropped: Seq<char>,
)
    requires
        all_white(before),
        all_white(after),
    ensures
        lookup_key(before + s + after, dropped) == lookup_key(s, dropped),
{
    assert(before + s + after =~= before + (s + after));
    lemma_trim_start_past_space(before, s + after);
    lemma_trim_start_concat(s, after);
    if trim_start(s).len() > 0 {
        lemma_trim_end_past_space(trim_start(s), after);
    } else {
        lemma_trim_start_past_space(after, Seq::<char>::empty());
        assert(after + Seq::<char>::empty() =~= after);
        assert(trim_start(s) =~= Seq::<char>::empty());
    }
    assert(trimmed(before + s + after) == trimmed(s));
}

proof fn lemma_trim_start_keeps_last(s: Seq<char>)
    requires
        s.len() > 0,
        !is_white_space(s.last()),
    ensures
        trim_start(s).len() > 0,
        trim_start(s).last() == s.last(),
    decreases s.len(),
{
    if is_white_space(s[0]) {
        lemma_trim_start_keeps_last(s.drop_first());
    }
}

proof fn lemma_trim_end_keeps_first(s: Seq<char>)
    requires
        s.len() > 0,
        !is_white_space(s[0]),
    ensures
        trim_end(s).len() > 0,
        trim_end(s)[0] == s[0],
    decreases s.len(),
{
    if is_white_space(s.last()) {
        lemma_trim_end_keeps_first(s.drop_last());
    }
}

proof fn lemma_trim_end_concat(x: Seq<char>, s: Seq<char>)
    ensures
        trim_end(x + s) == if trim_end(s).len() > 0 {
            x + trim_end(s)
        } else {
            trim_end(x)
        },
    decreases s.len(),
{
    if s.len() == 0 {
        assert(x + s =~= x);
    } else {
        assert((x + s).last() == s.last());
        if is_white_space(s.last()) {
            assert((x + s).drop_last() =~= x + s.drop_last());
            lemma_trim_end_concat(x, s.drop_last());
        }
    }
}

/// A separator between two parts of a name does not matter: with the
/// separator `c` taken out, the name is looked up by the same key. The parts
/// must not meet the separator with white space, which is kept where it is
/// not a separator itself.
pub proof fn law_lookup_ignores_separator(a: Seq<char>, c: char, b: Seq<char>, dropped: Seq<char>)
    requires
        dropped.contains(c),
        !is_white_space(c),
        !('A' <= c <= 'Z'),
        a.len() > 0 ==> !is_white_space(a.last()),
        b.len() > 0 ==> !is_white_space(b[0]),
    ensures
        lookup_key(a + seq![c] + b, dropped) == lookup_key(a + b, dropped),
{
    let u = seq![c];
    let p = trim_start(a);
    let q = trim_end(b);
    // Leading white space comes off `a` alone, trailing white space off `b`.
    assert(a + u + b =~= a + (u + b));
    assert((u + b)[0] == c);
    assert(trim_start(u + b) == u + b);
    lemma_trim_start_concat(a, u + b);
    if a.len() > 0 {
        lemma_trim_start_keeps_last(a);
    }
    assert(trim_start(a + u + b) == p + (u + b));
    lemma_trim_start_concat(a, b);
    if b.len() > 0 {
        assert(trim_start(b) == b);
    }
    assert(trim_start(a + b) == p + b);
    assert(p + (u + b) =~= (p + u) + b);
    lemma_trim_end_concat(p + u, b);
    lemma_trim_end_concat(p, b);
    if b.len() > 0 {
        lemma_trim_end_keeps_first(b);
    } else {
        assert((p + u).last() == c);
        if a.len() > 0 {
            assert(trim_end(p) == p);
        }
    }
    assert(trimmed(a + u + b) == p + u + q);
    assert(trimmed(a + b) == p + q);
    // Folding the case keeps the separator, and the separator is then dropped.
    assert((p + u + q).map_values(|x: char| ascii_lower(x)) =~= folded(p) + u + folded(q));
    assert((p + q).map_values(|x: char| ascii_lower(x)) =~= folded(p) + folded(q));
    lemma_without_concat(folded(p) + u, folded(q), dropped);
    lemma_without_concat(folded(p), u, dropped);
    lemma_without_concat(folded(p), folded(q), dropped);
    assert(u.drop_last() =~= Seq::<char>::empty());
    assert(u.last() == c);
    assert(without(Seq::<char>::empty(), dropped) == Seq::<char>::empty());
    assert(without(u, dropped) =~= Seq::<char>::empty());
    assert(without(folded(p), dropped) + without(u, dropped) =~= without(folded(p), dropped));
}

} // verus!

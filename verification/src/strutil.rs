//! Character-sequence utilities: the lexicographic order used to arrange
//! peer ids, shortened display forms of peer ids, and numeral rendering.

use vstd::prelude::*;
use vstd::string::StrSliceExecFns;

verus! {

/// Strict lexicographic order on character sequences, by code point.
pub open spec fn lex_lt(a: Seq<char>, b: Seq<char>) -> bool
    decreases a.len(),
{
    if b.len() == 0 {
        false
    } else if a.len() == 0 {
        true
    } else if a[0] != b[0] {
        (a[0] as u32) < (b[0] as u32)
    } else {
        lex_lt(a.drop_first(), b.drop_first())
    }
}

/// Reflexive closure of [`lex_lt`].
pub open spec fn lex_le(a: Seq<char>, b: Seq<char>) -> bool {
    lex_lt(a, b) || a == b
}

/// How [`lex_lt`] behaves once the first `i` characters are known equal.
pub proof fn lemma_lex_at(a: Seq<char>, b: Seq<char>, i: int)
    requires
        0 <= i <= a.len(),
        i <= b.len(),
        forall|j: int| 0 <= j < i ==> a[j] == b[j],
    ensures
        i == a.len() ==> (lex_lt(a, b) <==> a.len() < b.len()),
        i == a.len() && i == b.len() ==> a == b,
        i < a.len() && i == b.len() ==> !lex_lt(a, b),
        i < a.len() && i < b.len() && a[i] != b[i] ==> (lex_lt(a, b) <==> (a[i] as u32) < (
        b[i] as u32)),
    decreases i,
{
    if i == 0 {
        if a.len() == 0 && b.len() == 0 {
            assert(a =~= b);
        }
    } else {
        let a1 = a.drop_first();
        let b1 = b.drop_first();
        lemma_lex_at(a1, b1, i - 1);
        assert(lex_lt(a, b) == lex_lt(a1, b1));
        if i == a.len() && i == b.len() {
            assert(a1 == b1);
            assert(a =~= b);
        }
    }
}

proof fn lemma_char_cast_injective(x: char, y: char)
    requires
        x as u32 == y as u32,
    ensures
        x == y,
{
}

/// Any two character sequences are ordered or equal.
pub proof fn lemma_lex_trichotomy(a: Seq<char>, b: Seq<char>)
    ensures
        lex_lt(a, b) || lex_lt(b, a) || a == b,
    decreases a.len(),
{
    if a.len() == 0 && b.len() == 0 {
        assert(a =~= b);
    } else if a.len() > 0 && b.len() > 0 {
        if a[0] == b[0] {
            let a1 = a.drop_first();
            let b1 = b.drop_first();
            lemma_lex_trichotomy(a1, b1);
            if a1 == b1 {
                assert forall|i: int| 0 <= i < a.len() implies a[i] == b[i] by {
                    if i > 0 {
                        assert(a[i] == a1[i - 1]);
                        assert(b[i] == b1[i - 1]);
                    }
                }
                assert(a =~= b);
            }
        } else {
            if a[0] as u32 == b[0] as u32 {
                lemma_char_cast_injective(a[0], b[0]);
            }
        }
    }
}

/// The lexicographic order is transitive.
pub proof fn lemma_lex_lt_transitive(a: Seq<char>, b: Seq<char>, c: Seq<char>)
    requires
        lex_lt(a, b),
        lex_lt(b, c),
    ensures
        lex_lt(a, c),
    decreases b.len(),
{
    if b.len() > 0 && c.len() > 0 && a.len() > 0 {
        if a[0] == b[0] && b[0] == c[0] {
            lemma_lex_lt_transitive(a.drop_first(), b.drop_first(), c.drop_first());
        }
    }
}

/// Transitivity carried over to the reflexive closure.
pub proof fn lemma_lex_le_transitive(a: Seq<char>, b: Seq<char>, c: Seq<char>)
    requires
        lex_le(a, b),
        lex_le(b, c),
    ensures
        lex_le(a, c),
{
    if a != b && b != c {
        lemma_lex_lt_transitive(a, b, c);
    }
}

/// Whether `a` orders strictly before `b`, by code point.
pub fn str_lt(a: &str, b: &str) -> (r: bool)
    ensures
        r == lex_lt(a@, b@),
{
    let alen = a.unicode_len();
    let blen = b.unicode_len();
    let mut i: usize = 0;
    while i < alen && i < blen
        invariant
            i <= alen,
            i <= blen,
            alen == a@.len(),
            blen == b@.len(),
            forall|j: int| 0 <= j < i ==> a@[j] == b@[j],
        decreases alen - i,
    {
        let ca = a.get_char(i);
        let cb = b.get_char(i);
        if ca != cb {
            proof {
                lemma_lex_at(a@, b@, i as int);
            }
            return (ca as u32) < (cb as u32);
        }
        i = i + 1;
    }
    proof {
        lemma_lex_at(a@, b@, i as int);
    }
    alen < blen
}

/// A descending sequence in the lexicographic order.
pub open spec fn sorted_desc(s: Seq<Seq<char>>) -> bool {
    forall|i: int, j: int| 0 <= i < j < s.len() ==> lex_le(s[j], s[i])
}

/// An ascending sequence in the lexicographic order.
pub open spec fn sorted_asc(s: Seq<Seq<char>>) -> bool {
    forall|i: int, j: int| 0 <= i < j < s.len() ==> lex_le(s[i], s[j])
}

/// Rearrange ids into descending lexicographic order.
pub fn sort_desc(v: Vec<String>) -> (r: Vec<String>)
    ensures
        r.deep_view().to_multiset() == v.deep_view().to_multiset(),
        sorted_desc(r.deep_view()),
{
    broadcast use vstd::seq_lib::group_to_multiset_ensures;

    let mut rest = v;
    let ghost orig = rest.deep_view().to_multiset();
    let mut out: Vec<String> = Vec::new();
    proof {
        assert(out.deep_view().to_multiset().add(rest.deep_view().to_multiset()) =~= orig);
    }
    while rest.len() > 0
        invariant
            out.deep_view().to_multiset().add(rest.deep_view().to_multiset()) == orig,
            sorted_desc(out.deep_view()),
            forall|x: int, y: int|
                0 <= x < out.deep_view().len() && 0 <= y < rest.deep_view().len() ==> lex_le(
                    rest.deep_view()[y],
                    out.deep_view()[x],
                ),
        decreases rest@.len(),
    {
        let k = index_of_max(&rest);
        let ghost dv_rest = rest.deep_view();
        let ghost dv_out = out.deep_view();
        let ghost m = dv_rest[k as int];
        let picked = rest.remove(k);
        out.push(picked);
        proof {
            broadcast use vstd::seq_lib::group_to_multiset_ensures;

            assert(rest.deep_view() =~= dv_rest.remove(k as int));
            assert(out.deep_view() =~= dv_out.push(m));
            assert(dv_rest.contains(m));
            assert(dv_rest.to_multiset().count(m) > 0);
            assert(out.deep_view().to_multiset() =~= dv_out.to_multiset().insert(m));
            assert(rest.deep_view().to_multiset() =~= dv_rest.to_multiset().remove(m));
            assert(out.deep_view().to_multiset().add(rest.deep_view().to_multiset()) =~= orig);
            assert forall|x: int, y: int|
                0 <= x < out.deep_view().len() && 0 <= y < rest.deep_view().len() implies lex_le(
                rest.deep_view()[y],
                out.deep_view()[x],
            ) by {
                let ry = rest.deep_view()[y];
                if x < dv_out.len() {
                    if y < k {
                        assert(ry == dv_rest[y]);
                    } else {
                        assert(ry == dv_rest[y + 1]);
                    }
                } else {
                    assert(out.deep_view()[x] == m);
                    if y < k {
                        assert(ry == dv_rest[y]);
                    } else {
                        assert(ry == dv_rest[y + 1]);
                    }
                }
            }
        }
    }
    out
}

/// Copy a list of ids, value for value.
pub fn clone_ids(v: &Vec<String>) -> (r: Vec<String>)
    ensures
        r.deep_view() == v.deep_view(),
{
    let r = v.clone();
    proof {
        assert forall|i: int| 0 <= i < r@.len() implies r.deep_view()[i] == v.deep_view()[i] by {
            assert(cloned::<String>(v[i], r[i]));
        }
        assert(r.deep_view() =~= v.deep_view());
    }
    r
}

/// Copy the first `n` ids of a list, value for value.
pub fn clone_id_prefix(v: &Vec<String>, n: usize) -> (r: Vec<String>)
    requires
        n <= v@.len(),
    ensures
        r.deep_view() == v.deep_view().take(n as int),
{
    let mut r: Vec<String> = Vec::new();
    let mut i: usize = 0;
    while i < n
        invariant
            i <= n <= v@.len(),
            r.deep_view() == v.deep_view().take(i as int),
        decreases n - i,
    {
        let ghost dv = r.deep_view();
        r.push(v[i].clone());
        proof {
            assert(r.deep_view() =~= dv.push(v.deep_view()[i as int]));
            assert(r.deep_view() =~= v.deep_view().take(i + 1));
        }
        i = i + 1;
    }
    r
}

/// Index of the first occurrence of `c` in `s`, or `s.len()` if absent.
pub open spec fn first_idx(s: Seq<char>, c: char) -> int
    decreases s.len(),
{
    if s.len() == 0 {
        0
    } else if s[0] == c {
        0
    } else {
        1 + first_idx(s.drop_first(), c)
    }
}

proof fn lemma_first_idx(s: Seq<char>, c: char, i: int)
    requires
        0 <= i <= s.len(),
        forall|j: int| 0 <= j < i ==> s[j] != c,
        i < s.len() ==> s[i] == c,
    ensures
        first_idx(s, c) == i,
    decreases i,
{
    if s.len() == 0 {
    } else if i == 0 {
    } else {
        let s1 = s.drop_first();
        assert(forall|j: int| 0 <= j < i - 1 ==> s1[j] == s[j + 1]);
        lemma_first_idx(s1, c, i - 1);
    }
}

/// The shortened display form of a peer id: for ids of the recommended
/// shape `peer<num>_<hex>` the `<num>` part, otherwise the first four
/// characters.
pub open spec fn spec_short_peer(name: Seq<char>) -> Seq<char> {
    if name.len() >= 4 && name.take(4) == "peer"@ {
        let n = name.skip(4);
        if first_idx(n, '_') < n.len() {
            n.take(first_idx(n, '_'))
        } else {
            n.take(4)
        }
    } else if name.len() < 4 {
        name
    } else {
        name.take(4)
    }
}

/// Whether [`short_peer_str`] can shorten this name without running past
/// its end: a name that starts with `peer` but has no underscore after it
/// must have at least four more characters.
pub open spec fn shortenable(s: Seq<char>) -> bool {
    (s.len() >= 4 && s.take(4) == "peer"@ && first_idx(s.skip(4), '_') == s.skip(4).len())
        ==> s.len() >= 8
}

/// Shorten a peer name for display, assuming ids of the recommended shape
/// `peer<num>_<hex>`.
pub fn short_peer_str(peer_name: &str) -> (r: String)
    requires
        shortenable(peer_name@),
    ensures
        r@ == spec_short_peer(peer_name@),
{
    proof {
        reveal_strlit("peer");
    }
    let len = peer_name.unicode_len();
    let is_peer = len >= 4 && peer_name.get_char(0) == 'p' && peer_name.get_char(1) == 'e'
        && peer_name.get_char(2) == 'e' && peer_name.get_char(3) == 'r';
    proof {
        if len >= 4 {
            if is_peer {
                assert(peer_name@.take(4) =~= "peer"@);
            } else {
                if peer_name@.take(4) == "peer"@ {
                    assert(peer_name@[0] == peer_name@.take(4)[0]);
                    assert(peer_name@[1] == peer_name@.take(4)[1]);
                    assert(peer_name@[2] == peer_name@.take(4)[2]);
                    assert(peer_name@[3] == peer_name@.take(4)[3]);
                }
                assert(peer_name@.take(4) != "peer"@);
            }
        }
    }
    if is_peer {
        let ghost n = peer_name@.skip(4);
        let mut i: usize = 4;
        while i < len
            invariant
                4 <= i <= len,
                len == peer_name@.len(),
                n == peer_name@.skip(4),
                peer_name@.len() >= 4 && peer_name@.take(4) == "peer"@,
                forall|j: int| 4 <= j < i ==> peer_name@[j] != '_',
            decreases len - i,
        {
            if peer_name.get_char(i) == '_' {
                proof {
                    assert(forall|j: int| 0 <= j < i - 4 ==> n[j] == peer_name@[j + 4]);
                    lemma_first_idx(n, '_', i - 4);
                    assert(n.take(i - 4) =~= peer_name@.subrange(4, i as int));
                }
                return peer_name.substring_char(4, i).to_owned();
            }
            i = i + 1;
        }
        proof {
            assert(forall|j: int| 0 <= j < n.len() ==> n[j] == peer_name@[j + 4]);
            lemma_first_idx(n, '_', n.len() as int);
            assert(n.take(4) =~= peer_name@.subrange(4, 8));
        }
        peer_name.substring_char(4, 8).to_owned()
    } else if len < 4 {
        proof {
            assert(peer_name@.subrange(0, len as int) =~= peer_name@);
        }
        peer_name.substring_char(0, len).to_owned()
    } else {
        peer_name.substring_char(0, 4).to_owned()
    }
}

/// Shorten a peer id for display.
pub fn short_peer_id(peer_id: &String) -> (r: String)
    requires
        shortenable(peer_id@),
    ensures
        r@ == spec_short_peer(peer_id@),
{
    short_peer_str(peer_id.as_str())
}

/// The lower-case hexadecimal digit for `d`.
pub open spec fn hex_digit(d: int) -> char {
    if d == 0 {
        '0'
    } else if d == 1 {
        '1'
    } else if d == 2 {
        '2'
    } else if d == 3 {
        '3'
    } else if d == 4 {
        '4'
    } else if d == 5 {
        '5'
    } else if d == 6 {
        '6'
    } else if d == 7 {
        '7'
    } else if d == 8 {
        '8'
    } else if d == 9 {
        '9'
    } else if d == 10 {
        'a'
    } else if d == 11 {
        'b'
    } else if d == 12 {
        'c'
    } else if d == 13 {
        'd'
    } else if d == 14 {
        'e'
    } else {
        'f'
    }
}

/// Lower-case hexadecimal numeral of `n`, without leading zeros.
pub open spec fn hex_of(n: nat) -> Seq<char>
    decreases n,
{
    if n < 16 {
        seq![hex_digit(n as int)]
    } else {
        hex_of(n / 16).push(hex_digit((n % 16) as int))
    }
}

fn hex_digit_char(d: u64) -> (c: char)
    requires
        d < 16,
    ensures
        c == hex_digit(d as int),
{
    if d == 0 {
        '0'
    } else if d == 1 {
        '1'
    } else if d == 2 {
        '2'
    } else if d == 3 {
        '3'
    } else if d == 4 {
        '4'
    } else if d == 5 {
        '5'
    } else if d == 6 {
        '6'
    } else if d == 7 {
        '7'
    } else if d == 8 {
        '8'
    } else if d == 9 {
        '9'
    } else if d == 10 {
        'a'
    } else if d == 11 {
        'b'
    } else if d == 12 {
        'c'
    } else if d == 13 {
        'd'
    } else if d == 14 {
        'e'
    } else {
        'f'
    }
}

/// Render `n` in lower-case hexadecimal.
pub fn u64_to_hex(n: u64) -> (r: String)
    ensures
        r@ == hex_of(n as nat),
    decreases n,
{
    if n < 16 {
        let mut s = String::new();
        s.push(hex_digit_char(n));
        proof {
            assert(s@ =~= hex_of(n as nat));
        }
        s
    } else {
        let mut s = u64_to_hex(n / 16);
        s.push(hex_digit_char(n % 16));
        s
    }
}

/// Hexadecimal numerals hold ASCII characters only.
pub proof fn lemma_hex_of_ascii(n: nat)
    ensures
        vstd::utf8::is_ascii_chars(hex_of(n)),
    decreases n,
{
    if n < 16 {
        assert(hex_of(n) =~= seq![hex_digit(n as int)]);
    } else {
        lemma_hex_of_ascii(n / 16);
        let prev = hex_of(n / 16);
        assert forall|i: int| 0 <= i < hex_of(n).len() implies '\0' <= #[trigger] hex_of(n)[i]
            <= '\u{7f}' by {
            if i < prev.len() {
                assert(hex_of(n)[i] == prev[i]);
            } else {
                assert(hex_of(n)[i] == hex_digit((n % 16) as int));
            }
        }
    }
}

/// The decimal digit for `d`.
pub open spec fn dec_digit(d: int) -> char {
    if d == 0 {
        '0'
    } else if d == 1 {
        '1'
    } else if d == 2 {
        '2'
    } else if d == 3 {
        '3'
    } else if d == 4 {
        '4'
    } else if d == 5 {
        '5'
    } else if d == 6 {
        '6'
    } else if d == 7 {
        '7'
    } else if d == 8 {
        '8'
    } else {
        '9'
    }
}

/// Decimal numeral of `n`, without leading zeros.
pub open spec fn dec_of(n: nat) -> Seq<char>
    decreases n,
{
    if n < 10 {
        seq![dec_digit(n as int)]
    } else {
        dec_of(n / 10).push(dec_digit((n % 10) as int))
    }
}

fn dec_digit_char(d: u64) -> (c: char)
    requires
        d < 10,
    ensures
        c == dec_digit(d as int),
{
    if d == 0 {
        '0'
    } else if d == 1 {
        '1'
    } else if d == 2 {
        '2'
    } else if d == 3 {
        '3'
    } else if d == 4 {
        '4'
    } else if d == 5 {
        '5'
    } else if d == 6 {
        '6'
    } else if d == 7 {
        '7'
    } else if d == 8 {
        '8'
    } else {
        '9'
    }
}

/// Render `n` in decimal.
pub fn u64_to_dec(n: u64) -> (r: String)
    ensures
        r@ == dec_of(n as nat),
    decreases n,
{
    if n < 10 {
        let mut s = String::new();
        s.push(dec_digit_char(n));
        proof {
            assert(s@ =~= dec_of(n as nat));
        }
        s
    } else {
        let mut s = u64_to_dec(n / 10);
        s.push(dec_digit_char(n % 10));
        s
    }
}

/// Index of a lexicographically greatest element.
fn index_of_max(v: &Vec<String>) -> (k: usize)
    requires
        v@.len() > 0,
    ensures
        k < v.deep_view().len(),
        forall|j: int| 0 <= j < v.deep_view().len() ==> lex_le(v.deep_view()[j], v.deep_view()[k as int]),
{
    let mut k: usize = 0;
    let mut i: usize = 1;
    while i < v.len()
        invariant
            k < i <= v@.len(),
            forall|j: int| 0 <= j < i ==> lex_le(v.deep_view()[j], v.deep_view()[k as int]),
        decreases v@.len() - i,
    {
        let ghost dv = v.deep_view();
        if str_lt(v[k].as_str(), v[i].as_str()) {
            proof {
                assert forall|j: int| 0 <= j < i + 1 implies lex_le(dv[j], dv[i as int]) by {
                    if j < i {
                        lemma_lex_le_transitive(dv[j], dv[k as int], dv[i as int]);
                    }
                }
            }
            k = i;
        } else {
            proof {
                lemma_lex_trichotomy(dv[i as int], dv[k as int]);
            }
        }
        i = i + 1;
    }
    k
}

} // verus!

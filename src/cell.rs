use vstd::prelude::*;
use vstd::string::StrSliceExecFns;
use vstd::arithmetic::div_mod::{lemma_mod_breakdown, lemma_small_mod};
use s2::cellid::CellID;

verus! {

// A cell is handled as its 64-bit S2 identifier; the top three bits hold
// the cube face.
/// The cube face of a cell id.
pub open spec fn face_of(cell: u64) -> u64 {
    cell >> 61u64
}

/// The cells at `level` around the vertex of `cell` that lies nearest to it,
/// as S2 lists them.
pub uninterp spec fn vertex_neighbors_of(cell: u64, level: u64) -> Seq<u64>;

/// The leaf cell at coordinates `(i, j)` of cube face `face`.
pub uninterp spec fn leaf_cell_of(face: u8, i: i32, j: i32) -> u64;

/// Relies on s2's `CellID::vertex_neighbors`: three or four cells of `level`
/// on the faces of the cube, named by `vertex_neighbors_of`. It shifts by
/// `29 - level` (so `level` stays below 30) and reads the cube face of `cell`
/// (so the face is below 6).
#[verifier::external_body]
pub(crate) fn vertex_neighbors(cell: u64, level: u64) -> (r: Vec<u64>)
    requires
        level < 30,
        face_of(cell) < 6,
    ensures
        r@ == vertex_neighbors_of(cell, level),
        3 <= r@.len() <= 4,
        forall|k: int| 0 <= k < r@.len() ==> face_of(r@[k]) < 6,
{
    CellID(cell).vertex_neighbors(level).iter().map(|c| c.0).collect()
}

/// Relies on s2's `CellID::from_face_ij`: the leaf cell at `(i, j)` on cube
/// face `face`, whose top bits hold that face.
#[verifier::external_body]
pub(crate) fn leaf_cell(face: u8, i: i32, j: i32) -> (r: u64)
    requires
        face < 6,
        0 <= i < 0x4000_0000,
        0 <= j < 0x4000_0000,
    ensures
        r == leaf_cell_of(face, i, j),
        face_of(r) == face,
{
    CellID::from_face_ij(face, i, j).0
}

pub open spec fn pow16(n: nat) -> int
    decreases n,
{
    if n == 0 {
        1
    } else {
        16 * pow16((n - 1) as nat)
    }
}

/// The lowercase hexadecimal digit of `d` in `0..16`.
pub open spec fn hex_char(d: int) -> char {
    if d == 0 {
        '0'
    } else if d == 1 {
        '1'
    } else if d == 2 {
        '2'
    } else if d == 3 {
        '3'
    } else if d == 4 {
        '4'
    } else if d == 5 {
        '5'
    } else if d == 6 {
        '6'
    } else if d == 7 {
        '7'
    } else if d == 8 {
        '8'
    } else if d == 9 {
        '9'
    } else if d == 10 {
        'a'
    } else if d == 11 {
        'b'
    } else if d == 12 {
        'c'
    } else if d == 13 {
        'd'
    } else if d == 14 {
        'e'
    } else {
        'f'
    }
}

pub open spec fn is_hex_digit(c: char) -> bool {
    ||| ('0' as u32) <= (c as u32) <= ('9' as u32)
    ||| ('a' as u32) <= (c as u32) <= ('f' as u32)
    ||| ('A' as u32) <= (c as u32) <= ('F' as u32)
}

/// The value of a hexadecimal digit, in either case.
pub open spec fn hex_digit_value(c: char) -> int {
    if ('0' as u32) <= (c as u32) <= ('9' as u32) {
        (c as u32) - ('0' as u32)
    } else if ('a' as u32) <= (c as u32) <= ('f' as u32) {
        (c as u32) - ('a' as u32) + 10
    } else {
        (c as u32) - ('A' as u32) + 10
    }
}

/// The lowest `n` hexadecimal digits of `v`, most significant first.
pub open spec fn hex_digits(v: nat, n: nat) -> Seq<char>
    decreases n,
{
    if n == 0 {
        Seq::empty()
    } else {
        hex_digits(v / 16, (n - 1) as nat).push(hex_char((v % 16) as int))
    }
}

/// The number that a string of hexadecimal digits denotes.
pub open spec fn hex_value(s: Seq<char>) -> int
    decreases s.len(),
{
    if s.len() == 0 {
        0
    } else {
        hex_value(s.drop_last()) * 16 + hex_digit_value(s.last())
    }
}

/// `s` without its trailing `'0'` characters.
pub open spec fn strip_zeros(s: Seq<char>) -> Seq<char>
    decreases s.len(),
{
    if s.len() > 0 && s.last() == '0' {
        strip_zeros(s.drop_last())
    } else {
        s
    }
}

/// The token of a cell: `"X"` for zero, else the sixteen lowercase hex
/// digits of the id with the trailing zeros removed.
pub open spec fn token_of(cell: u64) -> Seq<char> {
    if cell == 0 {
        seq!['X']
    } else {
        strip_zeros(hex_digits(cell as nat, 16))
    }
}

/// A well-formed token: one to sixteen hexadecimal digits.
pub open spec fn is_token(s: Seq<char>) -> bool {
    &&& 1 <= s.len() <= 16
    &&& forall|k: int| 0 <= k < s.len() ==> is_hex_digit(#[trigger] s[k])
}

/// The cell id that a well-formed token stands for: its digits, padded on
/// the right with zeros to sixteen.
pub open spec fn token_value(s: Seq<char>) -> int {
    hex_value(s) * pow16((16 - s.len()) as nat)
}

/// Relies on s2's `CellID::to_token`, which formats the id as sixteen
/// lowercase hex digits and trims the trailing zeros, or gives `"X"` for zero.
#[verifier::external_body]
fn to_token(cell: u64) -> (r: String)
    ensures
        r@ == token_of(cell),
{
    CellID(cell).to_token()
}

/// Relies on s2's `CellID::from_token`: for one to sixteen hex digits,
/// `u64::from_str_radix` succeeds and the value is shifted left by four bits
/// for each digit short of sixteen.
#[verifier::external_body]
fn from_token(token: &str) -> (r: u64)
    ensures
        is_token(token@) ==> r as int == token_value(token@),
{
    CellID::from_token(token).0
}

/// The token of a cell id.
pub fn cell_to_token(cell: u64) -> (r: String)
    ensures
        r@ == token_of(cell),
{
    to_token(cell)
}

/// The cell id of a token; a string that is not one to sixteen hexadecimal
/// digits is refused.
pub fn cell_from_token(token: &str) -> (r: Result<u64, crate::error::ShardError>)
    ensures
        is_token(token@) <==> r is Ok,
        r is Ok ==> r->Ok_0 as int == token_value(token@),
        r is Err ==> r->Err_0 == crate::error::ShardError::DecodeError,
{
    let len = token.unicode_len();
    if len == 0 || len > 16 {
        return Err(crate::error::ShardError::DecodeError);
    }
    let mut k: usize = 0;
    while k < len
        invariant
            0 <= k <= len,
            len == token@.len(),
            forall|m: int| 0 <= m < k ==> is_hex_digit(#[trigger] token@[m]),
        decreases len - k,
    {
        let c = token.get_char(k);
        let ok = ('0' <= c && c <= '9') || ('a' <= c && c <= 'f') || ('A' <= c && c <= 'F');
        if !ok {
            return Err(crate::error::ShardError::DecodeError);
        }
        k = k + 1;
    }
    Ok(from_token(token))
}

proof fn lemma_hex_digits(v: nat, n: nat)
    ensures
        hex_digits(v, n).len() == n,
        forall|k: int| 0 <= k < n ==> is_hex_digit(#[trigger] hex_digits(v, n)[k]),
        hex_value(hex_digits(v, n)) == v % (pow16(n) as nat),
    decreases n,
{
    if n > 0 {
        let m = (n - 1) as nat;
        lemma_hex_digits(v / 16, m);
        lemma_pow16_positive(m);
        let s = hex_digits(v, n);
        let d = (v % 16) as int;
        assert(s.drop_last() =~= hex_digits(v / 16, m));
        assert(hex_digit_value(hex_char(d)) == d);
        assert(forall|k: int| 0 <= k < n ==> is_hex_digit(#[trigger] s[k])) by {
            assert forall|k: int| 0 <= k < n implies is_hex_digit(#[trigger] s[k]) by {
                if k < m {
                    assert(s[k] == hex_digits(v / 16, m)[k]);
                }
            }
        }
        lemma_mod_breakdown(v as int, 16, pow16(m));
    } else {
        assert(v % 1 == 0);
    }
}

proof fn lemma_pow16_positive(n: nat)
    ensures
        pow16(n) > 0,
    decreases n,
{
    if n > 0 {
        lemma_pow16_positive((n - 1) as nat);
    }
}

/// A run of `k` zero digits.
spec fn zeros(k: nat) -> Seq<char> {
    Seq::new(k, |i: int| '0')
}

proof fn lemma_strip_zeros(s: Seq<char>)
    ensures
        strip_zeros(s).len() <= s.len(),
        s =~= strip_zeros(s) + zeros((s.len() - strip_zeros(s).len()) as nat),
    decreases s.len(),
{
    if s.len() > 0 && s.last() == '0' {
        let t = s.drop_last();
        lemma_strip_zeros(t);
        let k = (t.len() - strip_zeros(t).len()) as nat;
        assert(zeros(k).push('0') =~= zeros(k + 1));
        assert(s =~= t.push('0'));
    } else {
        assert(zeros(0) =~= Seq::<char>::empty());
    }
}

proof fn lemma_hex_value_zeros(t: Seq<char>, k: nat)
    ensures
        hex_value(t + zeros(k)) == hex_value(t) * pow16(k),
    decreases k,
{
    if k == 0 {
        assert(t + zeros(0) =~= t);
    } else {
        let m = (k - 1) as nat;
        lemma_hex_value_zeros(t, m);
        let u = t + zeros(k);
        assert(u.drop_last() =~= t + zeros(m));
        assert(u.last() == '0');
        assert(hex_value(t) * pow16(m) * 16 == hex_value(t) * (16 * pow16(m))) by (nonlinear_arith);
    }
}

/// Tokens round-trip: for every cell id other than zero, the token of the id
/// is well formed and stands for the id again.
pub proof fn lemma_token_round_trip(cell: u64)
    requires
        cell != 0,
    ensures
        is_token(token_of(cell)),
        token_value(token_of(cell)) == cell,
{
    let h = hex_digits(cell as nat, 16);
    lemma_hex_digits(cell as nat, 16);
    reveal_with_fuel(pow16, 17);
    assert(pow16(16) == 0x1_0000_0000_0000_0000);
    lemma_small_mod(cell as nat, 0x1_0000_0000_0000_0000);
    assert(hex_value(h) == cell);
    let t = strip_zeros(h);
    lemma_strip_zeros(h);
    let k = (16 - t.len()) as nat;
    lemma_hex_value_zeros(t, k);
    assert(h =~= t + zeros(k));
    if t.len() == 0 {
        assert(t =~= Seq::<char>::empty());
        assert(hex_value(t) == 0);
        assert(hex_value(h) == 0);
    }
    assert forall|j: int| 0 <= j < t.len() implies is_hex_digit(#[trigger] t[j]) by {
        assert(t[j] == h[j]);
    }
}

} // verus!

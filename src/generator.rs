//! Drawing passwords from an alphabet with random values.

use vstd::prelude::*;

use vstd::arithmetic::div_mod::{
    lemma_fundamental_div_mod, lemma_fundamental_div_mod_converse, lemma_mod_bound,
};
use vstd::arithmetic::mul::lemma_mul_is_commutative;

use crate::alphabet::{default_alphabet, default_alphabet_of, in_default_set, lemma_default_alphabet_members};

verus! {

/// Why a password could not be generated.
#[derive(Debug, Clone, Copy, PartialEq, Eq, Structural)]
pub enum PasswordError {
    /// The requested length is negative.
    InvalidLength,
    /// Characters were requested from an alphabet that holds none.
    EmptyAlphabet,
}

/// The alphabet position that a raw random draw selects: the draw reduced
/// modulo the alphabet's length.
pub open spec fn draw_index(draw: int, n: int) -> int {
    draw % n
}

/// The password that a sequence of draws spells over `alphabet`: one
/// character per draw, in draw order.
pub open spec fn password_of(alphabet: Seq<char>, draws: Seq<u64>) -> Seq<char> {
    Seq::new(draws.len(), |i: int| alphabet[draw_index(draws[i] as int, alphabet.len() as int)])
}

/// Every character of a password spelled over `alphabet` belongs to `alphabet`.
pub proof fn lemma_password_within_alphabet(alphabet: Seq<char>, draws: Seq<u64>)
    requires
        alphabet.len() > 0,
    ensures
        password_of(alphabet, draws).len() == draws.len(),
        forall|i: int|
            0 <= i < draws.len() ==> alphabet.contains(#[trigger] password_of(alphabet, draws)[i]),
{
    assert forall|i: int| 0 <= i < draws.len() implies alphabet.contains(
        #[trigger] password_of(alphabet, draws)[i],
    ) by {
        let k = draw_index(draws[i] as int, alphabet.len() as int);
        assert(0 <= k < alphabet.len());
        assert(alphabet[k] == password_of(alphabet, draws)[i]);
    }
}

/// Some one of the `n` draw values from `start` on selects position `k`.
pub open spec fn selected_within_cycle(start: int, n: int, k: int) -> bool {
    exists|j: int| 0 <= j < n && #[trigger] draw_index(start + j, n) == k
}

/// Over any `n` consecutive draw values, each of the `n` alphabet positions
/// is selected by exactly one of them: the reduction favours no position.
pub proof fn lemma_draw_cycle_balanced(start: int, n: int)
    requires
        n > 0,
        start >= 0,
    ensures
        forall|k: int| 0 <= k < n ==> #[trigger] selected_within_cycle(start, n, k),
        forall|j1: int, j2: int|
            0 <= j1 < n && 0 <= j2 < n && #[trigger] draw_index(start + j1, n) == #[trigger] draw_index(
                start + j2,
                n,
            ) ==> j1 == j2,
{
    let q = start / n;
    let r = start % n;
    lemma_mod_bound(start, n);
    assert(start == q * n + r) by {
        lemma_fundamental_div_mod(start, n);
        lemma_mul_is_commutative(n, q);
    }
    assert forall|k: int| 0 <= k < n implies #[trigger] selected_within_cycle(start, n, k) by {
        if k >= r {
            let j = k - r;
            lemma_fundamental_div_mod_converse(start + j, n, q, k);
            assert(draw_index(start + j, n) == k);
        } else {
            let j = n - r + k;
            assert(start + j == (q + 1) * n + k) by (nonlinear_arith)
                requires
                    start == q * n + r,
                    j == n - r + k,
            ;
            lemma_fundamental_div_mod_converse(start + j, n, q + 1, k);
            assert(draw_index(start + j, n) == k);
        }
    }
    assert forall|j1: int, j2: int|
        0 <= j1 < n && 0 <= j2 < n && #[trigger] draw_index(start + j1, n) == #[trigger] draw_index(
            start + j2,
            n,
        ) implies j1 == j2 by {
        let m = draw_index(start + j1, n);
        let q1 = (start + j1) / n;
        let q2 = (start + j2) / n;
        lemma_fundamental_div_mod(start + j1, n);
        lemma_fundamental_div_mod(start + j2, n);
        assert(j1 - j2 == n * (q1 - q2)) by (nonlinear_arith)
            requires
                start + j1 == n * q1 + m,
                start + j2 == n * q2 + m,
        ;
        assert(j1 == j2) by (nonlinear_arith)
            requires
                j1 - j2 == n * (q1 - q2),
                -n < j1 - j2 < n,
                n > 0,
        ;
    }
}

/// Spells the password that `draws` select from `alphabet`.
pub fn password_from_draws(alphabet: &str, draws: &Vec<u64>) -> (r: String)
    requires
        alphabet@.len() > 0,
    ensures
        r@ == password_of(alphabet@, draws@),
{
    let n = alphabet.unicode_len();
    let mut out = String::new();
    let mut i: usize = 0;
    while i < draws.len()
        invariant
            n == alphabet@.len(),
            n > 0,
            i <= draws.len(),
            out@ == password_of(alphabet@, draws@.subrange(0, i as int)),
        decreases draws.len() - i,
    {
        let k = (draws[i] % (n as u64)) as usize;
        let piece = alphabet.substring_char(k, k + 1);
        out.append(piece);
        proof {
            assert(password_of(alphabet@, draws@.subrange(0, i + 1)) =~= password_of(
                alphabet@,
                draws@.subrange(0, i as int),
            ).push(alphabet@[k as int]));
        }
        i = i + 1;
    }
    proof {
        assert(draws@.subrange(0, i as int) =~= draws@);
    }
    out
}

/// A source of uniformly distributed 64-bit random values, supplied by the
/// caller so that generation carries no hidden global state.
pub trait RandomSource {
    /// The next random value.
    fn next_u64(&mut self) -> u64;
}

/// Takes `count` values from `rng`, in the order they come.
pub fn draw_many<R: RandomSource>(rng: &mut R, count: usize) -> (r: Vec<u64>)
    ensures
        r@.len() == count,
{
    let mut draws: Vec<u64> = Vec::new();
    let mut i: usize = 0;
    while i < count
        invariant
            i <= count,
            draws@.len() == i,
        decreases count - i,
    {
        let d = rng.next_u64();
        draws.push(d);
        i = i + 1;
    }
    draws
}

/// Spells the password that `draws` select from the default alphabet.
pub fn default_password_from_draws(with_special_chars: bool, draws: &Vec<u64>) -> (r: String)
    ensures
        r@ == password_of(default_alphabet_of(with_special_chars), draws@),
        r@.len() == draws@.len(),
        forall|i: int| 0 <= i < r@.len() ==> in_default_set(#[trigger] r@[i], with_special_chars),
{
    let chars = default_alphabet(with_special_chars);
    proof {
        lemma_default_alphabet_members(with_special_chars);
        lemma_password_within_alphabet(chars@, draws@);
    }
    password_from_draws(chars.as_str(), draws)
}

/// A password of `length` characters drawn from the default alphabet
/// (letters and digits, plus the symbols when `with_special_chars` holds).
pub fn random_password<R: RandomSource>(length: i32, with_special_chars: bool, rng: &mut R) -> (r:
    Result<String, PasswordError>)
    ensures
        length < 0 <==> r == Err::<String, PasswordError>(PasswordError::InvalidLength),
        length >= 0 ==> r is Ok,
        length == 0 ==> (r matches Ok(s) && s@.len() == 0),
        r matches Ok(s) ==> {
            &&& s@.len() == length
            &&& forall|i: int| 0 <= i < s@.len() ==> in_default_set(#[trigger] s@[i], with_special_chars)
            &&& exists|draws: Seq<u64>|
                draws.len() == length && s@ == password_of(default_alphabet_of(with_special_chars), draws)
        },
{
    if length < 0 {
        return Err(PasswordError::InvalidLength);
    }
    let draws = draw_many(rng, length as usize);
    let s = default_password_from_draws(with_special_chars, &draws);
    Ok(s)
}

/// A password of `length` characters drawn from `custom_set`, each position of
/// `custom_set` being equally likely (a repeated character counts once per
/// occurrence).
pub fn random_password_with_custom_set<R: RandomSource>(length: i32, custom_set: &str, rng: &mut R) -> (r:
    Result<String, PasswordError>)
    ensures
        length < 0 <==> r == Err::<String, PasswordError>(PasswordError::InvalidLength),
        (length > 0 && custom_set@.len() == 0) <==> r == Err::<String, PasswordError>(
            PasswordError::EmptyAlphabet,
        ),
        length == 0 ==> (r matches Ok(s) && s@.len() == 0),
        r matches Ok(s) ==> {
            &&& s@.len() == length
            &&& forall|i: int| 0 <= i < s@.len() ==> custom_set@.contains(#[trigger] s@[i])
            &&& exists|draws: Seq<u64>|
                draws.len() == length && s@ == password_of(custom_set@, draws)
        },
        (length >= 0 && !(length > 0 && custom_set@.len() == 0)) ==> r is Ok,
{
    if length < 0 {
        return Err(PasswordError::InvalidLength);
    }
    if length == 0 {
        let empty = String::new();
        proof {
            let draws = Seq::<u64>::empty();
            assert(empty@ =~= password_of(custom_set@, draws));
        }
        return Ok(empty);
    }
    if custom_set.unicode_len() == 0 {
        return Err(PasswordError::EmptyAlphabet);
    }
    let draws = draw_many(rng, length as usize);
    proof {
        lemma_password_within_alphabet(custom_set@, draws@);
    }
    let s = password_from_draws(custom_set, &draws);
    Ok(s)
}

/// The alphabet that a request uses: `custom_set` when it holds any character,
/// otherwise the default alphabet.
pub open spec fn chosen_alphabet(custom_set: Seq<char>, with_special_chars: bool) -> Seq<char> {
    if custom_set.len() > 0 {
        custom_set
    } else {
        default_alphabet_of(with_special_chars)
    }
}

/// A password as a command line asks for it: from `custom_set` when it is
/// non-empty (then `with_special_chars` plays no part), otherwise from the
/// default alphabet.
pub fn generate_password<R: RandomSource>(
    length: i32,
    with_special_chars: bool,
    custom_set: &str,
    rng: &mut R,
) -> (r: Result<String, PasswordError>)
    ensures
        length < 0 <==> r == Err::<String, PasswordError>(PasswordError::InvalidLength),
        length >= 0 ==> r is Ok,
        r matches Ok(s) ==> {
            &&& s@.len() == length
            &&& forall|i: int|
                0 <= i < s@.len() ==> chosen_alphabet(custom_set@, with_special_chars).contains(
                    #[trigger] s@[i],
                )
            &&& exists|draws: Seq<u64>|
                draws.len() == length && s@ == password_of(
                    chosen_alphabet(custom_set@, with_special_chars),
                    draws,
                )
        },
{
    if custom_set.unicode_len() > 0 {
        random_password_with_custom_set(length, custom_set, rng)
    } else {
        let r = random_password(length, with_special_chars, rng);
        proof {
            if r is Ok {
                let s = r->Ok_0;
                let draws = choose|draws: Seq<u64>|
                    draws.len() == length && s@ == password_of(
                        default_alphabet_of(with_special_chars),
                        draws,
                    );
                lemma_default_alphabet_members(with_special_chars);
                lemma_password_within_alphabet(default_alphabet_of(with_special_chars), draws);
            }
        }
        r
    }
}

} // verus!

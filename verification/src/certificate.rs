//! A certificate that the order of the field is a prime number.
//!
//! The certificate goes down a tree. The order is shown prime from two
//! prime divisors of its predecessor, each of these from a prime divisor of
//! its own predecessor, and so on down to primes small enough for trial
//! division. Every power that Pocklington's criterion asks for is computed
//! by square and multiply, one step for each bit of the exponent.

use crate::field::modulus;
use crate::number_theory::is_prime;
use crate::primality::{
    lemma_bit_step, lemma_chain_start, lemma_combine, lemma_pocklington, lemma_power_of_power,
    lemma_prime_by_trial, lemma_witness, power_is,
};
use vstd::prelude::*;

verus! {

/// 1637 is prime: nothing from 2 to 41 divides it.
proof fn lemma_prime_1637()
    ensures
        is_prime(1637int),
{
    assert forall|j: int| 2 <= j <= 41 implies #[trigger] (1637int % j) != 0 by {
        if j == 2 {
            assert(1637int % 2 != 0);
        } else if j == 3 {
            assert(1637int % 3 != 0);
        } else if j == 4 {
            assert(1637int % 4 != 0);
        } else if j == 5 {
            assert(1637int % 5 != 0);
        } else if j == 6 {
            assert(1637int % 6 != 0);
        } else if j == 7 {
            assert(1637int % 7 != 0);
        } else if j == 8 {
            assert(1637int % 8 != 0);
        } else if j == 9 {
            assert(1637int % 9 != 0);
        } else if j == 10 {
            assert(1637int % 10 != 0);
        } else if j == 11 {
            assert(1637int % 11 != 0);
        } else if j == 12 {
            assert(1637int % 12 != 0);
        } else if j == 13 {
            assert(1637int % 13 != 0);
        } else if j == 14 {
            assert(1637int % 14 != 0);
        } else if j == 15 {
            assert(1637int % 15 != 0);
        } else if j == 16 {
            assert(1637int % 16 != 0);
        } else if j == 17 {
            assert(1637int % 17 != 0);
        } else if j == 18 {
            assert(1637int % 18 != 0);
        } else if j == 19 {
            assert(1637int % 19 != 0);
        } else if j == 20 {
            assert(1637int % 20 != 0);
        } else if j == 21 {
            assert(1637int % 21 != 0);
        } else if j == 22 {
            assert(1637int % 22 != 0);
        } else if j == 23 {
            assert(1637int % 23 != 0);
        } else if j == 24 {
            assert(1637int % 24 != 0);
        } else if j == 25 {
            assert(1637int % 25 != 0);
        } else if j == 26 {
            assert(1637int % 26 != 0);
        } else if j == 27 {
            assert(1637int % 27 != 0);
        } else if j == 28 {
            assert(1637int % 28 != 0);
        } else if j == 29 {
            assert(1637int % 29 != 0);
        } else if j == 30 {
            assert(1637int % 30 != 0);
        } else if j == 31 {
            assert(1637int % 31 != 0);
        } else if j == 32 {
            assert(1637int % 32 != 0);
        } else if j == 33 {
            assert(1637int % 33 != 0);
        } else if j == 34 {
            assert(1637int % 34 != 0);
        } else if j == 35 {
            assert(1637int % 35 != 0);
        } else if j == 36 {
            assert(1637int % 36 != 0);
        } else if j == 37 {
            assert(1637int % 37 != 0);
        } else if j == 38 {
            assert(1637int % 38 != 0);
        } else if j == 39 {
            assert(1637int % 39 != 0);
        } else if j == 40 {
            assert(1637int % 40 != 0);
        } else if j == 41 {
            assert(1637int % 41 != 0);
        }
    }
    lemma_prime_by_trial(1637int, 41int);
}

/// 853 is prime: nothing from 2 to 30 divides it.
proof fn lemma_prime_853()
    ensures
        is_prime(853int),
{
    assert forall|j: int| 2 <= j <= 30 implies #[trigger] (853int % j) != 0 by {
        if j == 2 {
            assert(853int % 2 != 0);
        } else if j == 3 {
            assert(853int % 3 != 0);
        } else if j == 4 {
            assert(853int % 4 != 0);
        } else if j == 5 {
            assert(853int % 5 != 0);
        } else if j == 6 {
            assert(853int % 6 != 0);
        } else if j == 7 {
            assert(853int % 7 != 0);
        } else if j == 8 {
            assert(853int % 8 != 0);
        } else if j == 9 {
            assert(853int % 9 != 0);
        } else if j == 10 {
            assert(853int % 10 != 0);
        } else if j == 11 {
            assert(853int % 11 != 0);
        } else if j == 12 {
            assert(853int % 12 != 0);
        } else if j == 13 {
            assert(853int % 13 != 0);
        } else if j == 14 {
            assert(853int % 14 != 0);
        } else if j == 15 {
            assert(853int % 15 != 0);
        } else if j == 16 {
            assert(853int % 16 != 0);
        } else if j == 17 {
            assert(853int % 17 != 0);
        } else if j == 18 {
            assert(853int % 18 != 0);
        } else if j == 19 {
            assert(853int % 19 != 0);
        } else if j == 20 {
            assert(853int % 20 != 0);
        } else if j == 21 {
            assert(853int % 21 != 0);
        } else if j == 22 {
            assert(853int % 22 != 0);
        } else if j == 23 {
            assert(853int % 23 != 0);
        } else if j == 24 {
            assert(853int % 24 != 0);
        } else if j == 25 {
            assert(853int % 25 != 0);
        } else if j == 26 {
            assert(853int % 26 != 0);
        } else if j == 27 {
            assert(853int % 27 != 0);
        } else if j == 28 {
            assert(853int % 28 != 0);
        } else if j == 29 {
            assert(853int % 29 != 0);
        } else if j == 30 {
            assert(853int % 30 != 0);
        }
    }
    lemma_prime_by_trial(853int, 30int);
}

/// The power 458 of 2 modulo 639533339.
proof fn lemma_chain_1_0()
    ensures
        power_is(2int, 458nat, 639533339int, 569936353int),
{
    let a: int = 2int;
    let n: int = 639533339int;
    lemma_chain_start(a, n);
    let e0: nat = 0nat;
    let c0: int = 1int;
    let c1: int = 2int;
    let e1: nat = lemma_bit_step(a, n, e0, c0, 1, c1);
    let c2: int = 8int;
    let e2: nat = lemma_bit_step(a, n, e1, c1, 1, c2);
    let c3: int = 128int;
    let e3: nat = lemma_bit_step(a, n, e2, c2, 1, c3);
    let c4: int = 16384int;
    let e4: nat = lemma_bit_step(a, n, e3, c3, 0, c4);
    let c5: int = 268435456int;
    let e5: nat = lemma_bit_step(a, n, e4, c4, 0, c5);
    let c6: int = 588504884int;
    let e6: nat = lemma_bit_step(a, n, e5, c5, 1, c6);
    let c7: int = 381214812int;
    let e7: nat = lemma_bit_step(a, n, e6, c6, 0, c7);
    let c8: int = 307520719int;
    let e8: nat = lemma_bit_step(a, n, e7, c7, 1, c8);
    let c9: int = 569936353int;
    let e9: nat = lemma_bit_step(a, n, e8, c8, 0, c9);
}

/// The power 1637 of 569936353 modulo 639533339.
proof fn lemma_chain_2_0()
    ensures
        power_is(569936353int, 1637nat, 639533339int, 256057581int),
{
    let a: int = 569936353int;
    let n: int = 639533339int;
    lemma_chain_start(a, n);
    let e0: nat = 0nat;
    let c0: int = 1int;
    let c1: int = 569936353int;
    let e1: nat = lemma_bit_step(a, n, e0, c0, 1, c1);
    let c2: int = 576757596int;
    let e2: nat = lemma_bit_step(a, n, e1, c1, 1, c2);
    let c3: int = 346350812int;
    let e3: nat = lemma_bit_step(a, n, e2, c2, 0, c3);
    let c4: int = 476081691int;
    let e4: nat = lemma_bit_step(a, n, e3, c3, 0, c4);
    let c5: int = 282182576int;
    let e5: nat = lemma_bit_step(a, n, e4, c4, 1, c5);
    let c6: int = 144132996int;
    let e6: nat = lemma_bit_step(a, n, e5, c5, 1, c6);
    let c7: int = 306995837int;
    let e7: nat = lemma_bit_step(a, n, e6, c6, 0, c7);
    let c8: int = 530514611int;
    let e8: nat = lemma_bit_step(a, n, e7, c7, 0, c8);
    let c9: int = 148227881int;
    let e9: nat = lemma_bit_step(a, n, e8, c8, 1, c9);
    let c10: int = 449868847int;
    let e10: nat = lemma_bit_step(a, n, e9, c9, 0, c10);
    let c11: int = 256057581int;
    let e11: nat = lemma_bit_step(a, n, e10, c10, 1, c11);
}

/// The power 853 of 569936353 modulo 639533339.
proof fn lemma_chain_3_0()
    ensures
        power_is(569936353int, 853nat, 639533339int, 248876995int),
{
    let a: int = 569936353int;
    let n: int = 639533339int;
    lemma_chain_start(a, n);
    let e0: nat = 0nat;
    let c0: int = 1int;
    let c1: int = 569936353int;
    let e1: nat = lemma_bit_step(a, n, e0, c0, 1, c1);
    let c2: int = 576757596int;
    let e2: nat = lemma_bit_step(a, n, e1, c1, 1, c2);
    let c3: int = 346350812int;
    let e3: nat = lemma_bit_step(a, n, e2, c2, 0, c3);
    let c4: int = 580870054int;
    let e4: nat = lemma_bit_step(a, n, e3, c3, 1, c4);
    let c5: int = 307631766int;
    let e5: nat = lemma_bit_step(a, n, e4, c4, 0, c5);
    let c6: int = 48885504int;
    let e6: nat = lemma_bit_step(a, n, e5, c5, 1, c6);
    let c7: int = 308492291int;
    let e7: nat = lemma_bit_step(a, n, e6, c6, 0, c7);
    let c8: int = 315972641int;
    let e8: nat = lemma_bit_step(a, n, e7, c7, 1, c8);
    let c9: int = 195747935int;
    let e9: nat = lemma_bit_step(a, n, e8, c8, 0, c9);
    let c10: int = 248876995int;
    let e10: nat = lemma_bit_step(a, n, e9, c9, 1, c10);
}

/// The power 853 of 256057581 modulo 639533339.
proof fn lemma_chain_4_0()
    ensures
        power_is(256057581int, 853nat, 639533339int, 1int),
{
    let a: int = 256057581int;
    let n: int = 639533339int;
    lemma_chain_start(a, n);
    let e0: nat = 0nat;
    let c0: int = 1int;
    let c1: int = 256057581int;
    let e1: nat = lemma_bit_step(a, n, e0, c0, 1, c1);
    let c2: int = 209004351int;
    let e2: nat = lemma_bit_step(a, n, e1, c1, 1, c2);
    let c3: int = 526940689int;
    let e3: nat = lemma_bit_step(a, n, e2, c2, 0, c3);
    let c4: int = 601994091int;
    let e4: nat = lemma_bit_step(a, n, e3, c3, 1, c4);
    let c5: int = 55785818int;
    let e5: nat = lemma_bit_step(a, n, e4, c4, 0, c5);
    let c6: int = 232575578int;
    let e6: nat = lemma_bit_step(a, n, e5, c5, 1, c6);
    let c7: int = 308150347int;
    let e7: nat = lemma_bit_step(a, n, e6, c6, 0, c7);
    let c8: int = 286739634int;
    let e8: nat = lemma_bit_step(a, n, e7, c7, 1, c8);
    let c9: int = 368469890int;
    let e9: nat = lemma_bit_step(a, n, e8, c8, 0, c9);
    let c10: int = 1int;
    let e10: nat = lemma_bit_step(a, n, e9, c9, 1, c10);
}

/// 639533339 is prime, by Pocklington's criterion with the witness 2 and
/// the prime divisors 1637, 853 of its predecessor.
proof fn lemma_prime_639533339()
    ensures
        is_prime(639533339int),
{
    lemma_prime_1637();
    lemma_prime_853();
    lemma_chain_1_0();
    lemma_chain_2_0();
    lemma_power_of_power(2int, 639533339int, 458nat, 569936353int, 1637nat, 256057581int);
    lemma_chain_3_0();
    lemma_power_of_power(2int, 639533339int, 458nat, 569936353int, 853nat, 248876995int);
    lemma_chain_4_0();
    lemma_power_of_power(2int, 639533339int, 749746nat, 256057581int, 853nat, 1int);
    lemma_witness(
        639533339int,
        1637int,
        390674nat,
        2int,
        248876995int,
        296391531int,
        (-115341967int),
    );
    lemma_witness(
        639533339int,
        853int,
        749746nat,
        2int,
        256057581int,
        303978671int,
        (-121707561int),
    );
    lemma_combine(639533339int, 1637int, 853int, (-136int), 261int);
    lemma_pocklington(639533339int, 1396361int);
}

/// Part 1 of the way to: the power 102990218 of 2 modulo 65865678001877903.
proof fn lemma_chain_5_0()
    ensures
        power_is(2int, 50288nat, 65865678001877903int, 36278529593780522int),
{
    let a: int = 2int;
    let n: int = 65865678001877903int;
    lemma_chain_start(a, n);
    let e0: nat = 0nat;
    let c0: int = 1int;
    let c1: int = 2int;
    let e1: nat = lemma_bit_step(a, n, e0, c0, 1, c1);
    let c2: int = 8int;
    let e2: nat = lemma_bit_step(a, n, e1, c1, 1, c2);
    let c3: int = 64int;
    let e3: nat = lemma_bit_step(a, n, e2, c2, 0, c3);
    let c4: int = 4096int;
    let e4: nat = lemma_bit_step(a, n, e3, c3, 0, c4);
    let c5: int = 16777216int;
    let e5: nat = lemma_bit_step(a, n, e4, c4, 0, c5);
    let c6: int = 562949953421312int;
    let e6: nat = lemma_bit_step(a, n, e5, c5, 1, c6);
    let c7: int = 33669438334804592int;
    let e7: nat = lemma_bit_step(a, n, e6, c6, 0, c7);
    let c8: int = 29183889115278499int;
    let e8: nat = lemma_bit_step(a, n, e7, c7, 0, c8);
    let c9: int = 29525774262854301int;
    let e9: nat = lemma_bit_step(a, n, e8, c8, 0, c9);
    let c10: int = 38887542728293898int;
    let e10: nat = lemma_bit_step(a, n, e9, c9, 1, c10);
    let c11: int = 59236409187319396int;
    let e11: nat = lemma_bit_step(a, n, e10, c10, 1, c11);
    let c12: int = 6154534983015613int;
    let e12: nat = lemma_bit_step(a, n, e11, c11, 1, c12);
    let c13: int = 36599328655427822int;
    let e13: nat = lemma_bit_step(a, n, e12, c12, 0, c13);
    let c14: int = 34345934146059857int;
    let e14: nat = lemma_bit_step(a, n, e13, c13, 0, c14);
    let c15: int = 24290170823953961int;
    let e15: nat = lemma_bit_step(a, n, e14, c14, 0, c15);
    let c16: int = 36278529593780522int;
    let e16: nat = lemma_bit_step(a, n, e15, c15, 0, c16);
}

/// The power 102990218 of 2 modulo 65865678001877903.
proof fn lemma_chain_5_1()
    ensures
        power_is(2int, 102990218nat, 65865678001877903int, 8595199928015311int),
{
    let a: int = 2int;
    let n: int = 65865678001877903int;
    lemma_chain_5_0();
    let e0: nat = 50288nat;
    let c0: int = 36278529593780522int;
    let c1: int = 3469598488387767int;
    let e1: nat = lemma_bit_step(a, n, e0, c0, 0, c1);
    let c2: int = 2511672767434082int;
    let e2: nat = lemma_bit_step(a, n, e1, c1, 0, c2);
    let c3: int = 38057013584529261int;
    let e3: nat = lemma_bit_step(a, n, e2, c2, 1, c3);
    let c4: int = 20679008872633708int;
    let e4: nat = lemma_bit_step(a, n, e3, c3, 1, c4);
    let c5: int = 54636828819129795int;
    let e5: nat = lemma_bit_step(a, n, e4, c4, 0, c5);
    let c6: int = 64564281277289374int;
    let e6: nat = lemma_bit_step(a, n, e5, c5, 0, c6);
    let c7: int = 44900285821727216int;
    let e7: nat = lemma_bit_step(a, n, e6, c6, 0, c7);
    let c8: int = 37692726735093938int;
    let e8: nat = lemma_bit_step(a, n, e7, c7, 1, c8);
    let c9: int = 11626112380210856int;
    let e9: nat = lemma_bit_step(a, n, e8, c8, 0, c9);
    let c10: int = 29991397622566647int;
    let e10: nat = lemma_bit_step(a, n, e9, c9, 1, c10);
    let c11: int = 8595199928015311int;
    let e11: nat = lemma_bit_step(a, n, e10, c10, 0, c11);
}

/// Part 1 of the way to: the power 639533339 of 8595199928015311 modulo
/// 65865678001877903.
proof fn lemma_chain_6_0()
    ensures
        power_is(8595199928015311int, 39034nat, 65865678001877903int, 12272844760177368int),
{
    let a: int = 8595199928015311int;
    let n: int = 65865678001877903int;
    lemma_chain_start(a, n);
    let e0: nat = 0nat;
    let c0: int = 1int;
    let c1: int = 8595199928015311int;
    let e1: nat = lemma_bit_step(a, n, e0, c0, 1, c1);
    let c2: int = 19226070235069677int;
    let e2: nat = lemma_bit_step(a, n, e1, c1, 0, c2);
    let c3: int = 56968334197042590int;
    let e3: nat = lemma_bit_step(a, n, e2, c2, 0, c3);
    let c4: int = 18611656393288241int;
    let e4: nat = lemma_bit_step(a, n, e3, c3, 1, c4);
    let c5: int = 43734149829486000int;
    let e5: nat = lemma_bit_step(a, n, e4, c4, 1, c5);
    let c6: int = 48447415136911303int;
    let e6: nat = lemma_bit_step(a, n, e5, c5, 0, c6);
    let c7: int = 64820389105270256int;
    let e7: nat = lemma_bit_step(a, n, e6, c6, 0, c7);
    let c8: int = 51329992322973469int;
    let e8: nat = lemma_bit_step(a, n, e7, c7, 0, c8);
    let c9: int = 61286237417813760int;
    let e9: nat = lemma_bit_step(a, n, e8, c8, 0, c9);
    let c10: int = 58465146411114843int;
    let e10: nat = lemma_bit_step(a, n, e9, c9, 1, c10);
    let c11: int = 25160803760737125int;
    let e11: nat = lemma_bit_step(a, n, e10, c10, 1, c11);
    let c12: int = 43282835694537230int;
    let e12: nat = lemma_bit_step(a, n, e11, c11, 1, c12);
    let c13: int = 17564606142202988int;
    let e13: nat = lemma_bit_step(a, n, e12, c12, 1, c13);
    let c14: int = 55317398354378580int;
    let e14: nat = lemma_bit_step(a, n, e13, c13, 0, c14);
    let c15: int = 1018752242786798int;
    let e15: nat = lemma_bit_step(a, n, e14, c14, 1, c15);
    let c16: int = 12272844760177368int;
    let e16: nat = lemma_bit_step(a, n, e15, c15, 0, c16);
}

/// The power 639533339 of 8595199928015311 modulo 65865678001877903.
proof fn lemma_chain_6_1()
    ensures
        power_is(8595199928015311int, 639533339nat, 65865678001877903int, 1int),
{
    let a: int = 8595199928015311int;
    let n: int = 65865678001877903int;
    lemma_chain_6_0();
    let e0: nat = 39034nat;
    let c0: int = 12272844760177368int;
    let c1: int = 60491326033384519int;
    let e1: nat = lemma_bit_step(a, n, e0, c0, 0, c1);
    let c2: int = 51365274646233044int;
    let e2: nat = lemma_bit_step(a, n, e1, c1, 0, c2);
    let c3: int = 35194706668242559int;
    let e3: nat = lemma_bit_step(a, n, e2, c2, 0, c3);
    let c4: int = 41777112883480135int;
    let e4: nat = lemma_bit_step(a, n, e3, c3, 0, c4);
    let c5: int = 38459179869673960int;
    let e5: nat = lemma_bit_step(a, n, e4, c4, 0, c5);
    let c6: int = 34048583907657784int;
    let e6: nat = lemma_bit_step(a, n, e5, c5, 1, c6);
    let c7: int = 64143099883154873int;
    let e7: nat = lemma_bit_step(a, n, e6, c6, 0, c7);
    let c8: int = 7159896889705541int;
    let e8: nat = lemma_bit_step(a, n, e7, c7, 0, c8);
    let c9: int = 33061215984632264int;
    let e9: nat = lemma_bit_step(a, n, e8, c8, 0, c9);
    let c10: int = 45545585862734603int;
    let e10: nat = lemma_bit_step(a, n, e9, c9, 1, c10);
    let c11: int = 60626625102889057int;
    let e11: nat = lemma_bit_step(a, n, e10, c10, 1, c11);
    let c12: int = 57018535114983506int;
    let e12: nat = lemma_bit_step(a, n, e11, c11, 0, c12);
    let c13: int = 51349957123922359int;
    let e13: nat = lemma_bit_step(a, n, e12, c12, 1, c13);
    let c14: int = 1int;
    let e14: nat = lemma_bit_step(a, n, e13, c13, 1, c14);
}

/// 65865678001877903 is prime, by Pocklington's criterion with the witness 2 and
/// the prime divisors 639533339 of its predecessor.
proof fn lemma_prime_65865678001877903()
    ensures
        is_prime(65865678001877903int),
{
    lemma_prime_639533339();
    lemma_chain_5_1();
    lemma_chain_6_1();
    lemma_power_of_power(
        2int,
        65865678001877903int,
        102990218nat,
        8595199928015311int,
        639533339nat,
        1int,
    );
    lemma_witness(
        65865678001877903int,
        639533339int,
        102990218nat,
        2int,
        8595199928015311int,
        (-26832391183668398int),
        3501516628490027int,
    );
    lemma_pocklington(65865678001877903int, 639533339int);
}

/// Part 1 of the way to: the power 209796131360 of 2 modulo
/// 13818364434197438864469338081.
proof fn lemma_chain_7_0()
    ensures
        power_is(2int, 50019nat, 13818364434197438864469338081int, 1565875933293083035397743092int),
{
    let a: int = 2int;
    let n: int = 13818364434197438864469338081int;
    lemma_chain_start(a, n);
    let e0: nat = 0nat;
    let c0: int = 1int;
    let c1: int = 2int;
    let e1: nat = lemma_bit_step(a, n, e0, c0, 1, c1);
    let c2: int = 8int;
    let e2: nat = lemma_bit_step(a, n, e1, c1, 1, c2);
    let c3: int = 64int;
    let e3: nat = lemma_bit_step(a, n, e2, c2, 0, c3);
    let c4: int = 4096int;
    let e4: nat = lemma_bit_step(a, n, e3, c3, 0, c4);
    let c5: int = 16777216int;
    let e5: nat = lemma_bit_step(a, n, e4, c4, 0, c5);
    let c6: int = 281474976710656int;
    let e6: nat = lemma_bit_step(a, n, e5, c5, 0, c6);
    let c7: int = 6454316252356847677925181781int;
    let e7: nat = lemma_bit_step(a, n, e6, c6, 1, c7);
    let c8: int = 3495777377331334031211076330int;
    let e8: nat = lemma_bit_step(a, n, e7, c7, 1, c8);
    let c9: int = 5951512278320042950352511356int;
    let e9: nat = lemma_bit_step(a, n, e8, c8, 0, c9);
    let c10: int = 3033976872573099009872716038int;
    let e10: nat = lemma_bit_step(a, n, e9, c9, 1, c10);
    let c11: int = 5465722792888113942790748758int;
    let e11: nat = lemma_bit_step(a, n, e10, c10, 1, c11);
    let c12: int = 2529445442512532155623637994int;
    let e12: nat = lemma_bit_step(a, n, e11, c11, 0, c12);
    let c13: int = 440353389748771911165647087int;
    let e13: nat = lemma_bit_step(a, n, e12, c12, 0, c13);
    let c14: int = 3112286383224838334422801731int;
    let e14: nat = lemma_bit_step(a, n, e13, c13, 0, c14);
    let c15: int = 10883367953763375060713818947int;
    let e15: nat = lemma_bit_step(a, n, e14, c14, 1, c15);
    let c16: int = 1565875933293083035397743092int;
    let e16: nat = lemma_bit_step(a, n, e15, c15, 1, c16);
}

/// Part 2 of the way to: the power 209796131360 of 2 modulo
/// 13818364434197438864469338081.
proof fn lemma_chain_7_1()
    ensures
        power_is(
            2int,
            3278064552nat,
            13818364434197438864469338081int,
            776611901396362500027549364int,
        ),
{
    let a: int = 2int;
    let n: int = 13818364434197438864469338081int;
    lemma_chain_7_0();
    let e0: nat = 50019nat;
    let c0: int = 1565875933293083035397743092int;
    let c1: int = 490821471181962507738633853int;
    let e1: nat = lemma_bit_step(a, n, e0, c0, 0, c1);
    let c2: int = 3614946713776805242456025115int;
    let e2: nat = lemma_bit_step(a, n, e1, c1, 1, c2);
    let c3: int = 6928623037275597399094225425int;
    let e3: nat = lemma_bit_step(a, n, e2, c2, 0, c3);
    let c4: int = 6696758088301655987143847572int;
    let e4: nat = lemma_bit_step(a, n, e3, c3, 0, c4);
    let c5: int = 7819367881320079670549657171int;
    let e5: nat = lemma_bit_step(a, n, e4, c4, 1, c5);
    let c6: int = 10070268653200299995843475387int;
    let e6: nat = lemma_bit_step(a, n, e5, c5, 0, c6);
    let c7: int = 3816707788476410042118326014int;
    let e7: nat = lemma_bit_step(a, n, e6, c6, 1, c7);
    let c8: int = 10583777458174873562128618897int;
    let e8: nat = lemma_bit_step(a, n, e7, c7, 1, c8);
    let c9: int = 61611541808797052178780058int;
    let e9: nat = lemma_bit_step(a, n, e8, c8, 1, c9);
    let c10: int = 13703444609288914443892883008int;
    let e10: nat = lemma_bit_step(a, n, e9, c9, 0, c10);
    let c11: int = 11889075508072828027261057686int;
    let e11: nat = lemma_bit_step(a, n, e10, c10, 1, c11);
    let c12: int = 6696750377520025105869736712int;
    let e12: nat = lemma_bit_step(a, n, e11, c11, 0, c12);
    let c13: int = 9102474818579538724333781260int;
    let e13: nat = lemma_bit_step(a, n, e12, c12, 1, c13);
    let c14: int = 7993853100498013929712605736int;
    let e14: nat = lemma_bit_step(a, n, e13, c13, 0, c14);
    let c15: int = 13077241212351534571391395675int;
    let e15: nat = lemma_bit_step(a, n, e14, c14, 0, c15);
    let c16: int = 776611901396362500027549364int;
    let e16: nat = lemma_bit_step(a, n, e15, c15, 0, c16);
}

/// The power 209796131360 of 2 modulo 13818364434197438864469338081.
proof fn lemma_chain_7_2()
    ensures
        power_is(
            2int,
            209796131360nat,
            13818364434197438864469338081int,
            7935281130018080704632618576int,
        ),
{
    let a: int = 2int;
    let n: int = 13818364434197438864469338081int;
    lemma_chain_7_1();
    let e0: nat = 3278064552nat;
    let c0: int = 776611901396362500027549364int;
    let c1: int = 692313430825461849034301520int;
    let e1: nat = lemma_bit_step(a, n, e0, c0, 1, c1);
    let c2: int = 9108418817094604941133376915int;
    let e2: nat = lemma_bit_step(a, n, e1, c1, 0, c2);
    let c3: int = 13554696113211819504756156809int;
    let e3: nat = lemma_bit_step(a, n, e2, c2, 0, c3);
    let c4: int = 9851413725777882755728564398int;
    let e4: nat = lemma_bit_step(a, n, e3, c3, 0, c4);
    let c5: int = 11475781924502439791542453899int;
    let e5: nat = lemma_bit_step(a, n, e4, c4, 0, c5);
    let c6: int = 7935281130018080704632618576int;
    let e6: nat = lemma_bit_step(a, n, e5, c5, 0, c6);
}

/// Part 1 of the way to: the power 65865678001877903 of
/// 7935281130018080704632618576 modulo 13818364434197438864469338081.
proof fn lemma_chain_8_0()
    ensures
        power_is(
            7935281130018080704632618576int,
            59904nat,
            13818364434197438864469338081int,
            10413093752592839881829586129int,
        ),
{
    let a: int = 7935281130018080704632618576int;
    let n: int = 13818364434197438864469338081int;
    lemma_chain_start(a, n);
    let e0: nat = 0nat;
    let c0: int = 1int;
    let c1: int = 7935281130018080704632618576int;
    let e1: nat = lemma_bit_step(a, n, e0, c0, 1, c1);
    let c2: int = 6024626098376368604520791548int;
    let e2: nat = lemma_bit_step(a, n, e1, c1, 1, c2);
    let c3: int = 12956526157738010221657952029int;
    let e3: nat = lemma_bit_step(a, n, e2, c2, 1, c3);
    let c4: int = 13033178315209579486208481915int;
    let e4: nat = lemma_bit_step(a, n, e3, c3, 0, c4);
    let c5: int = 9317283377009505927246043607int;
    let e5: nat = lemma_bit_step(a, n, e4, c4, 1, c5);
    let c6: int = 3487141057479528001213568715int;
    let e6: nat = lemma_bit_step(a, n, e5, c5, 0, c6);
    let c7: int = 8970463893610592358603246707int;
    let e7: nat = lemma_bit_step(a, n, e6, c6, 1, c7);
    let c8: int = 13047074007182443388793947416int;
    let e8: nat = lemma_bit_step(a, n, e7, c7, 0, c8);
    let c9: int = 1735893499133178782183529707int;
    let e9: nat = lemma_bit_step(a, n, e8, c8, 0, c9);
    let c10: int = 2277860932176299701036661121int;
    let e10: nat = lemma_bit_step(a, n, e9, c9, 0, c10);
    let c11: int = 10456841577218911324352461447int;
    let e11: nat = lemma_bit_step(a, n, e10, c10, 0, c11);
    let c12: int = 11582084072275290222046741408int;
    let e12: nat = lemma_bit_step(a, n, e11, c11, 0, c12);
    let c13: int = 4440869139873206848644823141int;
    let e13: nat = lemma_bit_step(a, n, e12, c12, 0, c13);
    let c14: int = 8368951715619670804580817870int;
    let e14: nat = lemma_bit_step(a, n, e13, c13, 0, c14);
    let c15: int = 9262168650417991593144528480int;
    let e15: nat = lemma_bit_step(a, n, e14, c14, 0, c15);
    let c16: int = 10413093752592839881829586129int;
    let e16: nat = lemma_bit_step(a, n, e15, c15, 0, c16);
}

/// Part 2 of the way to: the power 65865678001877903 of
/// 7935281130018080704632618576 modulo 13818364434197438864469338081.
proof fn lemma_chain_8_1()
    ensures
        power_is(
            7935281130018080704632618576int,
            3925900340nat,
            13818364434197438864469338081int,
            9286782187083334098797683226int,
        ),
{
    let a: int = 7935281130018080704632618576int;
    let n: int = 13818364434197438864469338081int;
    lemma_chain_8_0();
    let e0: nat = 59904nat;
    let c0: int = 10413093752592839881829586129int;
    let c1: int = 11541844625233648289585365274int;
    let e1: nat = lemma_bit_step(a, n, e0, c0, 0, c1);
    let c2: int = 4089172793395676412059969189int;
    let e2: nat = lemma_bit_step(a, n, e1, c1, 1, c2);
    let c3: int = 123795530186511610780831045int;
    let e3: nat = lemma_bit_step(a, n, e2, c2, 1, c3);
    let c4: int = 3995911146589813549241500956int;
    let e4: nat = lemma_bit_step(a, n, e3, c3, 1, c4);
    let c5: int = 7213163208392189156475395815int;
    let e5: nat = lemma_bit_step(a, n, e4, c4, 1, c5);
    let c6: int = 3274665168306567780251474939int;
    let e6: nat = lemma_bit_step(a, n, e5, c5, 1, c6);
    let c7: int = 7783209883449169180516943092int;
    let e7: nat = lemma_bit_step(a, n, e6, c6, 0, c7);
    let c8: int = 12137052172119357729802499609int;
    let e8: nat = lemma_bit_step(a, n, e7, c7, 0, c8);
    let c9: int = 753190004820108438227960086int;
    let e9: nat = lemma_bit_step(a, n, e8, c8, 0, c9);
    let c10: int = 9480013504884722808418395875int;
    let e10: nat = lemma_bit_step(a, n, e9, c9, 0, c10);
    let c11: int = 10310184326597100927003724519int;
    let e11: nat = lemma_bit_step(a, n, e10, c10, 1, c11);
    let c12: int = 3138503201478530464709256003int;
    let e12: nat = lemma_bit_step(a, n, e11, c11, 1, c12);
    let c13: int = 12483562629543047011950850809int;
    let e13: nat = lemma_bit_step(a, n, e12, c12, 0, c13);
    let c14: int = 2281409498763660828057122321int;
    let e14: nat = lemma_bit_step(a, n, e13, c13, 1, c14);
    let c15: int = 8432267785655359550494713763int;
    let e15: nat = lemma_bit_step(a, n, e14, c14, 0, c15);
    let c16: int = 9286782187083334098797683226int;
    let e16: nat = lemma_bit_step(a, n, e15, c15, 0, c16);
}

/// Part 3 of the way to: the power 65865678001877903 of
/// 7935281130018080704632618576 modulo 13818364434197438864469338081.
proof fn lemma_chain_8_2()
    ensures
        power_is(
            7935281130018080704632618576int,
            257287804694835nat,
            13818364434197438864469338081int,
            3124199797785987746960266099int,
        ),
{
    let a: int = 7935281130018080704632618576int;
    let n: int = 13818364434197438864469338081int;
    lemma_chain_8_1();
    let e0: nat = 3925900340nat;
    let c0: int = 9286782187083334098797683226int;
    let c1: int = 7349931621413274043139007121int;
    let e1: nat = lemma_bit_step(a, n, e0, c0, 0, c1);
    let c2: int = 11241010701785258861774228018int;
    let e2: nat = lemma_bit_step(a, n, e1, c1, 0, c2);
    let c3: int = 10495543114326162342869356054int;
    let e3: nat = lemma_bit_step(a, n, e2, c2, 1, c3);
    let c4: int = 1878424754868214010089219927int;
    let e4: nat = lemma_bit_step(a, n, e3, c3, 1, c4);
    let c5: int = 7214738950431482892676211854int;
    let e5: nat = lemma_bit_step(a, n, e4, c4, 0, c5);
    let c6: int = 8378849114816027470545259614int;
    let e6: nat = lemma_bit_step(a, n, e5, c5, 0, c6);
    let c7: int = 12903809095485579282294832217int;
    let e7: nat = lemma_bit_step(a, n, e6, c6, 0, c7);
    let c8: int = 10620567016425678254099014230int;
    let e8: nat = lemma_bit_step(a, n, e7, c7, 1, c8);
    let c9: int = 2552326705477704630885573290int;
    let e9: nat = lemma_bit_step(a, n, e8, c8, 0, c9);
    let c10: int = 93879213923488799007543223int;
    let e10: nat = lemma_bit_step(a, n, e9, c9, 0, c10);
    let c11: int = 5861745727356882287855134263int;
    let e11: nat = lemma_bit_step(a, n, e10, c10, 1, c11);
    let c12: int = 5715998367833451257024545553int;
    let e12: nat = lemma_bit_step(a, n, e11, c11, 1, c12);
    let c13: int = 9315829236175563345934962545int;
    let e13: nat = lemma_bit_step(a, n, e12, c12, 0, c13);
    let c14: int = 6932638189365131593329946845int;
    let e14: nat = lemma_bit_step(a, n, e13, c13, 0, c14);
    let c15: int = 3083762274448825405925025177int;
    let e15: nat = lemma_bit_step(a, n, e14, c14, 1, c15);
    let c16: int = 3124199797785987746960266099int;
    let e16: nat = lemma_bit_step(a, n, e15, c15, 1, c16);
}

/// The power 65865678001877903 of 7935281130018080704632618576 modulo
/// 13818364434197438864469338081.
proof fn lemma_chain_8_3()
    ensures
        power_is(
            7935281130018080704632618576int,
            65865678001877903nat,
            13818364434197438864469338081int,
            1int,
        ),
{
    let a: int = 7935281130018080704632618576int;
    let n: int = 13818364434197438864469338081int;
    lemma_chain_8_2();
    let e0: nat = 257287804694835nat;
    let c0: int = 3124199797785987746960266099int;
    let c1: int = 3057894684126085342478126306int;
    let e1: nat = lemma_bit_step(a, n, e0, c0, 1, c1);
    let c2: int = 3859583265371772333019919582int;
    let e2: nat = lemma_bit_step(a, n, e1, c1, 0, c2);
    let c3: int = 6246147404744190337875264163int;
    let e3: nat = lemma_bit_step(a, n, e2, c2, 0, c3);
    let c4: int = 7624688656232388209735739235int;
    let e4: nat = lemma_bit_step(a, n, e3, c3, 0, c4);
    let c5: int = 5751857602344423908298335459int;
    let e5: nat = lemma_bit_step(a, n, e4, c4, 1, c5);
    let c6: int = 9228697715789270620358885072int;
    let e6: nat = lemma_bit_step(a, n, e5, c5, 1, c6);
    let c7: int = 7213377970993644489293477400int;
    let e7: nat = lemma_bit_step(a, n, e6, c6, 1, c7);
    let c8: int = 1int;
    let e8: nat = lemma_bit_step(a, n, e7, c7, 1, c8);
}

/// 13818364434197438864469338081 is prime, by Pocklington's criterion with the witness 2 and
/// the prime divisors 65865678001877903 of its predecessor.
proof fn lemma_prime_13818364434197438864469338081()
    ensures
        is_prime(13818364434197438864469338081int),
{
    lemma_prime_65865678001877903();
    lemma_chain_7_2();
    lemma_chain_8_3();
    lemma_power_of_power(
        2int,
        13818364434197438864469338081int,
        209796131360nat,
        7935281130018080704632618576int,
        65865678001877903nat,
        1int,
    );
    lemma_witness(
        13818364434197438864469338081int,
        65865678001877903int,
        209796131360nat,
        2int,
        7935281130018080704632618576int,
        (-1536539538315178280123351415int),
        882367320820141738818589946int,
    );
    lemma_pocklington(13818364434197438864469338081int, 65865678001877903int);
}

/// 31 is prime: nothing from 2 to 6 divides it.
proof fn lemma_prime_31()
    ensures
        is_prime(31int),
{
    assert forall|j: int| 2 <= j <= 6 implies #[trigger] (31int % j) != 0 by {
        if j == 2 {
            assert(31int % 2 != 0);
        } else if j == 3 {
            assert(31int % 3 != 0);
        } else if j == 4 {
            assert(31int % 4 != 0);
        } else if j == 5 {
            assert(31int % 5 != 0);
        } else if j == 6 {
            assert(31int % 6 != 0);
        }
    }
    lemma_prime_by_trial(31int, 6int);
}

/// 5 is prime: nothing from 2 to 3 divides it.
proof fn lemma_prime_5()
    ensures
        is_prime(5int),
{
    assert forall|j: int| 2 <= j <= 3 implies #[trigger] (5int % j) != 0 by {
        if j == 2 {
            assert(5int % 2 != 0);
        } else if j == 3 {
            assert(5int % 3 != 0);
        }
    }
    lemma_prime_by_trial(5int, 3int);
}

/// 3 is prime: nothing from 2 to 2 divides it.
proof fn lemma_prime_3()
    ensures
        is_prime(3int),
{
    assert forall|j: int| 2 <= j < 3 implies #[trigger] (3int % j) != 0 by {
        assert(j == 2);
    }
}

/// Part 1 of the way to: the power 93000 of 2 modulo 93001.
proof fn lemma_chain_9_0()
    ensures
        power_is(2int, 46500nat, 93001int, 1int),
{
    let a: int = 2int;
    let n: int = 93001int;
    lemma_chain_start(a, n);
    let e0: nat = 0nat;
    let c0: int = 1int;
    let c1: int = 2int;
    let e1: nat = lemma_bit_step(a, n, e0, c0, 1, c1);
    let c2: int = 4int;
    let e2: nat = lemma_bit_step(a, n, e1, c1, 0, c2);
    let c3: int = 32int;
    let e3: nat = lemma_bit_step(a, n, e2, c2, 1, c3);
    let c4: int = 2048int;
    let e4: nat = lemma_bit_step(a, n, e3, c3, 1, c4);
    let c5: int = 9259int;
    let e5: nat = lemma_bit_step(a, n, e4, c4, 0, c5);
    let c6: int = 57319int;
    let e6: nat = lemma_bit_step(a, n, e5, c5, 1, c6);
    let c7: int = 21434int;
    let e7: nat = lemma_bit_step(a, n, e6, c6, 0, c7);
    let c8: int = 75833int;
    let e8: nat = lemma_bit_step(a, n, e7, c7, 1, c8);
    let c9: int = 40110int;
    let e9: nat = lemma_bit_step(a, n, e8, c8, 1, c9);
    let c10: int = 80802int;
    let e10: nat = lemma_bit_step(a, n, e9, c9, 0, c10);
    let c11: int = 28002int;
    let e11: nat = lemma_bit_step(a, n, e10, c10, 1, c11);
    let c12: int = 20573int;
    let e12: nat = lemma_bit_step(a, n, e11, c11, 0, c12);
    let c13: int = 778int;
    let e13: nat = lemma_bit_step(a, n, e12, c12, 0, c13);
    let c14: int = 1555int;
    let e14: nat = lemma_bit_step(a, n, e13, c13, 1, c14);
    let c15: int = 93000int;
    let e15: nat = lemma_bit_step(a, n, e14, c14, 0, c15);
    let c16: int = 1int;
    let e16: nat = lemma_bit_step(a, n, e15, c15, 0, c16);
}

/// The power 93000 of 2 modulo 93001.
proof fn lemma_chain_9_1()
    ensures
        power_is(2int, 93000nat, 93001int, 1int),
{
    let a: int = 2int;
    let n: int = 93001int;
    lemma_chain_9_0();
    let e0: nat = 46500nat;
    let c0: int = 1int;
    let c1: int = 1int;
    let e1: nat = lemma_bit_step(a, n, e0, c0, 0, c1);
}

/// The power 3000 of 2 modulo 93001.
proof fn lemma_chain_10_0()
    ensures
        power_is(2int, 3000nat, 93001int, 52049int),
{
    let a: int = 2int;
    let n: int = 93001int;
    lemma_chain_start(a, n);
    let e0: nat = 0nat;
    let c0: int = 1int;
    let c1: int = 2int;
    let e1: nat = lemma_bit_step(a, n, e0, c0, 1, c1);
    let c2: int = 4int;
    let e2: nat = lemma_bit_step(a, n, e1, c1, 0, c2);
    let c3: int = 32int;
    let e3: nat = lemma_bit_step(a, n, e2, c2, 1, c3);
    let c4: int = 2048int;
    let e4: nat = lemma_bit_step(a, n, e3, c3, 1, c4);
    let c5: int = 18518int;
    let e5: nat = lemma_bit_step(a, n, e4, c4, 1, c5);
    let c6: int = 21637int;
    let e6: nat = lemma_bit_step(a, n, e5, c5, 0, c6);
    let c7: int = 78471int;
    let e7: nat = lemma_bit_step(a, n, e6, c6, 1, c7);
    let c8: int = 17260int;
    let e8: nat = lemma_bit_step(a, n, e7, c7, 1, c8);
    let c9: int = 50794int;
    let e9: nat = lemma_bit_step(a, n, e8, c8, 1, c9);
    let c10: int = 89695int;
    let e10: nat = lemma_bit_step(a, n, e9, c9, 0, c10);
    let c11: int = 48519int;
    let e11: nat = lemma_bit_step(a, n, e10, c10, 0, c11);
    let c12: int = 52049int;
    let e12: nat = lemma_bit_step(a, n, e11, c11, 0, c12);
}

/// The power 18600 of 2 modulo 93001.
proof fn lemma_chain_11_0()
    ensures
        power_is(2int, 18600nat, 93001int, 28198int),
{
    let a: int = 2int;
    let n: int = 93001int;
    lemma_chain_start(a, n);
    let e0: nat = 0nat;
    let c0: int = 1int;
    let c1: int = 2int;
    let e1: nat = lemma_bit_step(a, n, e0, c0, 1, c1);
    let c2: int = 4int;
    let e2: nat = lemma_bit_step(a, n, e1, c1, 0, c2);
    let c3: int = 16int;
    let e3: nat = lemma_bit_step(a, n, e2, c2, 0, c3);
    let c4: int = 512int;
    let e4: nat = lemma_bit_step(a, n, e3, c3, 1, c4);
    let c5: int = 76142int;
    let e5: nat = lemma_bit_step(a, n, e4, c4, 0, c5);
    let c6: int = 14825int;
    let e6: nat = lemma_bit_step(a, n, e5, c5, 0, c6);
    let c7: int = 19262int;
    let e7: nat = lemma_bit_step(a, n, e6, c6, 0, c7);
    let c8: int = 87310int;
    let e8: nat = lemma_bit_step(a, n, e7, c7, 1, c8);
    let c9: int = 23133int;
    let e9: nat = lemma_bit_step(a, n, e8, c8, 0, c9);
    let c10: int = 15870int;
    let e10: nat = lemma_bit_step(a, n, e9, c9, 1, c10);
    let c11: int = 10192int;
    let e11: nat = lemma_bit_step(a, n, e10, c10, 0, c11);
    let c12: int = 82495int;
    let e12: nat = lemma_bit_step(a, n, e11, c11, 1, c12);
    let c13: int = 76850int;
    let e13: nat = lemma_bit_step(a, n, e12, c12, 0, c13);
    let c14: int = 79997int;
    let e14: nat = lemma_bit_step(a, n, e13, c13, 0, c14);
    let c15: int = 28198int;
    let e15: nat = lemma_bit_step(a, n, e14, c14, 0, c15);
}

/// The power 31000 of 2 modulo 93001.
proof fn lemma_chain_12_0()
    ensures
        power_is(2int, 31000nat, 93001int, 22786int),
{
    let a: int = 2int;
    let n: int = 93001int;
    lemma_chain_start(a, n);
    let e0: nat = 0nat;
    let c0: int = 1int;
    let c1: int = 2int;
    let e1: nat = lemma_bit_step(a, n, e0, c0, 1, c1);
    let c2: int = 8int;
    let e2: nat = lemma_bit_step(a, n, e1, c1, 1, c2);
    let c3: int = 128int;
    let e3: nat = lemma_bit_step(a, n, e2, c2, 1, c3);
    let c4: int = 32768int;
    let e4: nat = lemma_bit_step(a, n, e3, c3, 1, c4);
    let c5: int = 45279int;
    let e5: nat = lemma_bit_step(a, n, e4, c4, 0, c5);
    let c6: int = 73797int;
    let e6: nat = lemma_bit_step(a, n, e5, c5, 0, c6);
    let c7: int = 89302int;
    let e7: nat = lemma_bit_step(a, n, e6, c6, 1, c7);
    let c8: int = 11454int;
    let e8: nat = lemma_bit_step(a, n, e7, c7, 0, c8);
    let c9: int = 62706int;
    let e9: nat = lemma_bit_step(a, n, e8, c8, 0, c9);
    let c10: int = 53157int;
    let e10: nat = lemma_bit_step(a, n, e9, c9, 0, c10);
    let c11: int = 34532int;
    let e11: nat = lemma_bit_step(a, n, e10, c10, 1, c11);
    let c12: int = 404int;
    let e12: nat = lemma_bit_step(a, n, e11, c11, 1, c12);
    let c13: int = 70215int;
    let e13: nat = lemma_bit_step(a, n, e12, c12, 0, c13);
    let c14: int = 70214int;
    let e14: nat = lemma_bit_step(a, n, e13, c13, 0, c14);
    let c15: int = 22786int;
    let e15: nat = lemma_bit_step(a, n, e14, c14, 0, c15);
}

/// 93001 is prime, by Pocklington's criterion with the witness 2 and
/// the prime divisors 31, 5, 3 of its predecessor.
proof fn lemma_prime_93001()
    ensures
        is_prime(93001int),
{
    lemma_prime_31();
    lemma_prime_5();
    lemma_prime_3();
    lemma_chain_9_1();
    lemma_chain_10_0();
    lemma_chain_11_0();
    lemma_chain_12_0();
    lemma_witness(93001int, 31int, 3000nat, 2int, 52049int, (-13596int), 7609int);
    lemma_witness(93001int, 5int, 18600nat, 2int, 28198int, 35420int, (-10739int));
    lemma_witness(93001int, 3int, 31000nat, 2int, 22786int, (-7596int), 1861int);
    lemma_combine(93001int, 31int, 5int, 1int, (-6int));
    lemma_combine(93001int, 155int, 3int, (-1int), 52int);
    lemma_pocklington(93001int, 465int);
}

/// 661 is prime: nothing from 2 to 26 divides it.
proof fn lemma_prime_661()
    ensures
        is_prime(661int),
{
    assert forall|j: int| 2 <= j <= 26 implies #[trigger] (661int % j) != 0 by {
        if j == 2 {
            assert(661int % 2 != 0);
        } else if j == 3 {
            assert(661int % 3 != 0);
        } else if j == 4 {
            assert(661int % 4 != 0);
        } else if j == 5 {
            assert(661int % 5 != 0);
        } else if j == 6 {
            assert(661int % 6 != 0);
        } else if j == 7 {
            assert(661int % 7 != 0);
        } else if j == 8 {
            assert(661int % 8 != 0);
        } else if j == 9 {
            assert(661int % 9 != 0);
        } else if j == 10 {
            assert(661int % 10 != 0);
        } else if j == 11 {
            assert(661int % 11 != 0);
        } else if j == 12 {
            assert(661int % 12 != 0);
        } else if j == 13 {
            assert(661int % 13 != 0);
        } else if j == 14 {
            assert(661int % 14 != 0);
        } else if j == 15 {
            assert(661int % 15 != 0);
        } else if j == 16 {
            assert(661int % 16 != 0);
        } else if j == 17 {
            assert(661int % 17 != 0);
        } else if j == 18 {
            assert(661int % 18 != 0);
        } else if j == 19 {
            assert(661int % 19 != 0);
        } else if j == 20 {
            assert(661int % 20 != 0);
        } else if j == 21 {
            assert(661int % 21 != 0);
        } else if j == 22 {
            assert(661int % 22 != 0);
        } else if j == 23 {
            assert(661int % 23 != 0);
        } else if j == 24 {
            assert(661int % 24 != 0);
        } else if j == 25 {
            assert(661int % 25 != 0);
        } else if j == 26 {
            assert(661int % 26 != 0);
        }
    }
    lemma_prime_by_trial(661int, 26int);
}

/// The power 196 of 2 modulo 12048837557.
proof fn lemma_chain_13_0()
    ensures
        power_is(2int, 196nat, 12048837557int, 9314271357int),
{
    let a: int = 2int;
    let n: int = 12048837557int;
    lemma_chain_start(a, n);
    let e0: nat = 0nat;
    let c0: int = 1int;
    let c1: int = 2int;
    let e1: nat = lemma_bit_step(a, n, e0, c0, 1, c1);
    let c2: int = 8int;
    let e2: nat = lemma_bit_step(a, n, e1, c1, 1, c2);
    let c3: int = 64int;
    let e3: nat = lemma_bit_step(a, n, e2, c2, 0, c3);
    let c4: int = 4096int;
    let e4: nat = lemma_bit_step(a, n, e3, c3, 0, c4);
    let c5: int = 16777216int;
    let e5: nat = lemma_bit_step(a, n, e4, c4, 0, c5);
    let c6: int = 4165083158int;
    let e6: nat = lemma_bit_step(a, n, e5, c5, 1, c6);
    let c7: int = 821496352int;
    let e7: nat = lemma_bit_step(a, n, e6, c6, 0, c7);
    let c8: int = 9314271357int;
    let e8: nat = lemma_bit_step(a, n, e7, c7, 0, c8);
}

/// Part 1 of the way to: the power 93001 of 9314271357 modulo 12048837557.
proof fn lemma_chain_14_0()
    ensures
        power_is(9314271357int, 46500nat, 12048837557int, 3456573169int),
{
    let a: int = 9314271357int;
    let n: int = 12048837557int;
    lemma_chain_start(a, n);
    let e0: nat = 0nat;
    let c0: int = 1int;
    let c1: int = 9314271357int;
    let e1: nat = lemma_bit_step(a, n, e0, c0, 1, c1);
    let c2: int = 9168089018int;
    let e2: nat = lemma_bit_step(a, n, e1, c1, 0, c2);
    let c3: int = 4061668814int;
    let e3: nat = lemma_bit_step(a, n, e2, c2, 1, c3);
    let c4: int = 7562296142int;
    let e4: nat = lemma_bit_step(a, n, e3, c3, 1, c4);
    let c5: int = 234144577int;
    let e5: nat = lemma_bit_step(a, n, e4, c4, 0, c5);
    let c6: int = 2768983253int;
    let e6: nat = lemma_bit_step(a, n, e5, c5, 1, c6);
    let c7: int = 6628019596int;
    let e7: nat = lemma_bit_step(a, n, e6, c6, 0, c7);
    let c8: int = 4241546384int;
    let e8: nat = lemma_bit_step(a, n, e7, c7, 1, c8);
    let c9: int = 347048005int;
    let e9: nat = lemma_bit_step(a, n, e8, c8, 1, c9);
    let c10: int = 4910460436int;
    let e10: nat = lemma_bit_step(a, n, e9, c9, 0, c10);
    let c11: int = 10782540533int;
    let e11: nat = lemma_bit_step(a, n, e10, c10, 1, c11);
    let c12: int = 4918240498int;
    let e12: nat = lemma_bit_step(a, n, e11, c11, 0, c12);
    let c13: int = 11866516789int;
    let e13: nat = lemma_bit_step(a, n, e12, c12, 0, c13);
    let c14: int = 332226191int;
    let e14: nat = lemma_bit_step(a, n, e13, c13, 1, c14);
    let c15: int = 10078003434int;
    let e15: nat = lemma_bit_step(a, n, e14, c14, 0, c15);
    let c16: int = 3456573169int;
    let e16: nat = lemma_bit_step(a, n, e15, c15, 0, c16);
}

/// The power 93001 of 9314271357 modulo 12048837557.
proof fn lemma_chain_14_1()
    ensures
        power_is(9314271357int, 93001nat, 12048837557int, 8877273464int),
{
    let a: int = 9314271357int;
    let n: int = 12048837557int;
    lemma_chain_14_0();
    let e0: nat = 46500nat;
    let c0: int = 3456573169int;
    let c1: int = 8877273464int;
    let e1: nat = lemma_bit_step(a, n, e0, c0, 1, c1);
}

/// The power 661 of 9314271357 modulo 12048837557.
proof fn lemma_chain_15_0()
    ensures
        power_is(9314271357int, 661nat, 12048837557int, 4746995210int),
{
    let a: int = 9314271357int;
    let n: int = 12048837557int;
    lemma_chain_start(a, n);
    let e0: nat = 0nat;
    let c0: int = 1int;
    let c1: int = 9314271357int;
    let e1: nat = lemma_bit_step(a, n, e0, c0, 1, c1);
    let c2: int = 9168089018int;
    let e2: nat = lemma_bit_step(a, n, e1, c1, 0, c2);
    let c3: int = 4061668814int;
    let e3: nat = lemma_bit_step(a, n, e2, c2, 1, c3);
    let c4: int = 9046522363int;
    let e4: nat = lemma_bit_step(a, n, e3, c3, 0, c4);
    let c5: int = 6578070318int;
    let e5: nat = lemma_bit_step(a, n, e4, c4, 0, c5);
    let c6: int = 5082060440int;
    let e6: nat = lemma_bit_step(a, n, e5, c5, 1, c6);
    let c7: int = 1427382409int;
    let e7: nat = lemma_bit_step(a, n, e6, c6, 0, c7);
    let c8: int = 8433024288int;
    let e8: nat = lemma_bit_step(a, n, e7, c7, 1, c8);
    let c9: int = 4031795360int;
    let e9: nat = lemma_bit_step(a, n, e8, c8, 0, c9);
    let c10: int = 4746995210int;
    let e10: nat = lemma_bit_step(a, n, e9, c9, 1, c10);
}

/// The power 661 of 8877273464 modulo 12048837557.
proof fn lemma_chain_16_0()
    ensures
        power_is(8877273464int, 661nat, 12048837557int, 1int),
{
    let a: int = 8877273464int;
    let n: int = 12048837557int;
    lemma_chain_start(a, n);
    let e0: nat = 0nat;
    let c0: int = 1int;
    let c1: int = 8877273464int;
    let e1: nat = lemma_bit_step(a, n, e0, c0, 1, c1);
    let c2: int = 10710350132int;
    let e2: nat = lemma_bit_step(a, n, e1, c1, 0, c2);
    let c3: int = 11770248475int;
    let e3: nat = lemma_bit_step(a, n, e2, c2, 1, c3);
    let c4: int = 367603087int;
    let e4: nat = lemma_bit_step(a, n, e3, c3, 0, c4);
    let c5: int = 2886329163int;
    let e5: nat = lemma_bit_step(a, n, e4, c4, 0, c5);
    let c6: int = 392452655int;
    let e6: nat = lemma_bit_step(a, n, e5, c5, 1, c6);
    let c7: int = 809173725int;
    let e7: nat = lemma_bit_step(a, n, e6, c6, 0, c7);
    let c8: int = 2042184382int;
    let e8: nat = lemma_bit_step(a, n, e7, c7, 1, c8);
    let c9: int = 34599137int;
    let e9: nat = lemma_bit_step(a, n, e8, c8, 0, c9);
    let c10: int = 1int;
    let e10: nat = lemma_bit_step(a, n, e9, c9, 1, c10);
}

/// 12048837557 is prime, by Pocklington's criterion with the witness 2 and
/// the prime divisors 93001, 661 of its predecessor.
proof fn lemma_prime_12048837557()
    ensures
        is_prime(12048837557int),
{
    lemma_prime_93001();
    lemma_prime_661();
    lemma_chain_13_0();
    lemma_chain_14_1();
    lemma_power_of_power(2int, 12048837557int, 196nat, 9314271357int, 93001nat, 8877273464int);
    lemma_chain_15_0();
    lemma_power_of_power(2int, 12048837557int, 196nat, 9314271357int, 661nat, 4746995210int);
    lemma_chain_16_0();
    lemma_power_of_power(2int, 12048837557int, 18228196nat, 8877273464int, 661nat, 1int);
    lemma_witness(
        12048837557int,
        93001int,
        129556nat,
        2int,
        4746995210int,
        (-1744493148int),
        687294569int,
    );
    lemma_witness(
        12048837557int,
        661int,
        18228196nat,
        2int,
        8877273464int,
        1826643224int,
        (-1345823723int),
    );
    lemma_combine(12048837557int, 93001int, 661int, (-195int), 27436int);
    lemma_pocklington(12048837557int, 61473661int);
}

/// The power 428 of 2 modulo 5156902474397.
proof fn lemma_chain_17_0()
    ensures
        power_is(2int, 428nat, 5156902474397int, 4746712836098int),
{
    let a: int = 2int;
    let n: int = 5156902474397int;
    lemma_chain_start(a, n);
    let e0: nat = 0nat;
    let c0: int = 1int;
    let c1: int = 2int;
    let e1: nat = lemma_bit_step(a, n, e0, c0, 1, c1);
    let c2: int = 8int;
    let e2: nat = lemma_bit_step(a, n, e1, c1, 1, c2);
    let c3: int = 64int;
    let e3: nat = lemma_bit_step(a, n, e2, c2, 0, c3);
    let c4: int = 8192int;
    let e4: nat = lemma_bit_step(a, n, e3, c3, 1, c4);
    let c5: int = 67108864int;
    let e5: nat = lemma_bit_step(a, n, e4, c4, 0, c5);
    let c6: int = 3247534443830int;
    let e6: nat = lemma_bit_step(a, n, e5, c5, 1, c6);
    let c7: int = 3848293325051int;
    let e7: nat = lemma_bit_step(a, n, e6, c6, 1, c7);
    let c8: int = 5053068510787int;
    let e8: nat = lemma_bit_step(a, n, e7, c7, 0, c8);
    let c9: int = 4746712836098int;
    let e9: nat = lemma_bit_step(a, n, e8, c8, 0, c9);
}

/// Part 1 of the way to: the power 12048837557 of 4746712836098 modulo
/// 5156902474397.
proof fn lemma_chain_18_0()
    ensures
        power_is(4746712836098int, 45962nat, 5156902474397int, 569229458997int),
{
    let a: int = 4746712836098int;
    let n: int = 5156902474397int;
    lemma_chain_start(a, n);
    let e0: nat = 0nat;
    let c0: int = 1int;
    let c1: int = 4746712836098int;
    let e1: nat = lemma_bit_step(a, n, e0, c0, 1, c1);
    let c2: int = 4873537632190int;
    let e2: nat = lemma_bit_step(a, n, e1, c1, 0, c2);
    let c3: int = 3644367028578int;
    let e3: nat = lemma_bit_step(a, n, e2, c2, 1, c3);
    let c4: int = 1512708647324int;
    let e4: nat = lemma_bit_step(a, n, e3, c3, 1, c4);
    let c5: int = 2458361394247int;
    let e5: nat = lemma_bit_step(a, n, e4, c4, 0, c5);
    let c6: int = 1372198352576int;
    let e6: nat = lemma_bit_step(a, n, e5, c5, 0, c6);
    let c7: int = 3985494425225int;
    let e7: nat = lemma_bit_step(a, n, e6, c6, 1, c7);
    let c8: int = 3534033127334int;
    let e8: nat = lemma_bit_step(a, n, e7, c7, 1, c8);
    let c9: int = 2097983046559int;
    let e9: nat = lemma_bit_step(a, n, e8, c8, 1, c9);
    let c10: int = 3949638834514int;
    let e10: nat = lemma_bit_step(a, n, e9, c9, 0, c10);
    let c11: int = 2886924168213int;
    let e11: nat = lemma_bit_step(a, n, e10, c10, 0, c11);
    let c12: int = 4889216364411int;
    let e12: nat = lemma_bit_step(a, n, e11, c11, 0, c12);
    let c13: int = 1186104587753int;
    let e13: nat = lemma_bit_step(a, n, e12, c12, 1, c13);
    let c14: int = 4863306363187int;
    let e14: nat = lemma_bit_step(a, n, e13, c13, 0, c14);
    let c15: int = 3528003011007int;
    let e15: nat = lemma_bit_step(a, n, e14, c14, 1, c15);
    let c16: int = 569229458997int;
    let e16: nat = lemma_bit_step(a, n, e15, c15, 0, c16);
}

/// Part 2 of the way to: the power 12048837557 of 4746712836098 modulo
/// 5156902474397.
proof fn lemma_chain_18_1()
    ensures
        power_is(4746712836098int, 3012209389nat, 5156902474397int, 4570632802352int),
{
    let a: int = 4746712836098int;
    let n: int = 5156902474397int;
    lemma_chain_18_0();
    let e0: nat = 45962nat;
    let c0: int = 569229458997int;
    let c1: int = 4322973491138int;
    let e1: nat = lemma_bit_step(a, n, e0, c0, 1, c1);
    let c2: int = 1056634934969int;
    let e2: nat = lemma_bit_step(a, n, e1, c1, 0, c2);
    let c3: int = 2967256843868int;
    let e3: nat = lemma_bit_step(a, n, e2, c2, 1, c3);
    let c4: int = 4214317258230int;
    let e4: nat = lemma_bit_step(a, n, e3, c3, 0, c4);
    let c5: int = 2005289838737int;
    let e5: nat = lemma_bit_step(a, n, e4, c4, 1, c5);
    let c6: int = 2188467409472int;
    let e6: nat = lemma_bit_step(a, n, e5, c5, 0, c6);
    let c7: int = 2598843926205int;
    let e7: nat = lemma_bit_step(a, n, e6, c6, 1, c7);
    let c8: int = 4903139152562int;
    let e8: nat = lemma_bit_step(a, n, e7, c7, 0, c8);
    let c9: int = 2379638444348int;
    let e9: nat = lemma_bit_step(a, n, e8, c8, 1, c9);
    let c10: int = 4488210961748int;
    let e10: nat = lemma_bit_step(a, n, e9, c9, 1, c10);
    let c11: int = 2385369468561int;
    let e11: nat = lemma_bit_step(a, n, e10, c10, 1, c11);
    let c12: int = 2260607923718int;
    let e12: nat = lemma_bit_step(a, n, e11, c11, 0, c12);
    let c13: int = 4942587966814int;
    let e13: nat = lemma_bit_step(a, n, e12, c12, 1, c13);
    let c14: int = 1513905999439int;
    let e14: nat = lemma_bit_step(a, n, e13, c13, 1, c14);
    let c15: int = 3368897426571int;
    let e15: nat = lemma_bit_step(a, n, e14, c14, 0, c15);
    let c16: int = 4570632802352int;
    let e16: nat = lemma_bit_step(a, n, e15, c15, 1, c16);
}

/// The power 12048837557 of 4746712836098 modulo 5156902474397.
proof fn lemma_chain_18_2()
    ensures
        power_is(4746712836098int, 12048837557nat, 5156902474397int, 1int),
{
    let a: int = 4746712836098int;
    let n: int = 5156902474397int;
    lemma_chain_18_1();
    let e0: nat = 3012209389nat;
    let c0: int = 4570632802352int;
    let c1: int = 3938668016706int;
    let e1: nat = lemma_bit_step(a, n, e0, c0, 0, c1);
    let c2: int = 1int;
    let e2: nat = lemma_bit_step(a, n, e1, c1, 1, c2);
}

/// 5156902474397 is prime, by Pocklington's criterion with the witness 2 and
/// the prime divisors 12048837557 of its predecessor.
proof fn lemma_prime_5156902474397()
    ensures
        is_prime(5156902474397int),
{
    lemma_prime_12048837557();
    lemma_chain_17_0();
    lemma_chain_18_2();
    lemma_power_of_power(2int, 5156902474397int, 428nat, 4746712836098int, 12048837557nat, 1int);
    lemma_witness(
        5156902474397int,
        12048837557int,
        428nat,
        2int,
        4746712836098int,
        (-67615922697int),
        62237626130int,
    );
    lemma_pocklington(5156902474397int, 12048837557int);
}

/// The power 324 of 2 modulo 1670836401704629.
proof fn lemma_chain_19_0()
    ensures
        power_is(2int, 324nat, 1670836401704629int, 11046204280772int),
{
    let a: int = 2int;
    let n: int = 1670836401704629int;
    lemma_chain_start(a, n);
    let e0: nat = 0nat;
    let c0: int = 1int;
    let c1: int = 2int;
    let e1: nat = lemma_bit_step(a, n, e0, c0, 1, c1);
    let c2: int = 4int;
    let e2: nat = lemma_bit_step(a, n, e1, c1, 0, c2);
    let c3: int = 32int;
    let e3: nat = lemma_bit_step(a, n, e2, c2, 1, c3);
    let c4: int = 1024int;
    let e4: nat = lemma_bit_step(a, n, e3, c3, 0, c4);
    let c5: int = 1048576int;
    let e5: nat = lemma_bit_step(a, n, e4, c4, 0, c5);
    let c6: int = 1099511627776int;
    let e6: nat = lemma_bit_step(a, n, e5, c5, 0, c6);
    let c7: int = 1551356960661984int;
    let e7: nat = lemma_bit_step(a, n, e6, c6, 1, c7);
    let c8: int = 253377396054226int;
    let e8: nat = lemma_bit_step(a, n, e7, c7, 0, c8);
    let c9: int = 11046204280772int;
    let e9: nat = lemma_bit_step(a, n, e8, c8, 0, c9);
}

/// Part 1 of the way to: the power 5156902474397 of 11046204280772 modulo
/// 1670836401704629.
proof fn lemma_chain_20_0()
    ensures
        power_is(11046204280772int, 38421nat, 1670836401704629int, 1494067479693012int),
{
    let a: int = 11046204280772int;
    let n: int = 1670836401704629int;
    lemma_chain_start(a, n);
    let e0: nat = 0nat;
    let c0: int = 1int;
    let c1: int = 11046204280772int;
    let e1: nat = lemma_bit_step(a, n, e0, c0, 1, c1);
    let c2: int = 1662414987046364int;
    let e2: nat = lemma_bit_step(a, n, e1, c1, 0, c2);
    let c3: int = 243335622413464int;
    let e3: nat = lemma_bit_step(a, n, e2, c2, 0, c3);
    let c4: int = 938638730596843int;
    let e4: nat = lemma_bit_step(a, n, e3, c3, 1, c4);
    let c5: int = 824118890218688int;
    let e5: nat = lemma_bit_step(a, n, e4, c4, 0, c5);
    let c6: int = 267262586498538int;
    let e6: nat = lemma_bit_step(a, n, e5, c5, 1, c6);
    let c7: int = 49492090486633int;
    let e7: nat = lemma_bit_step(a, n, e6, c6, 1, c7);
    let c8: int = 307337505430343int;
    let e8: nat = lemma_bit_step(a, n, e7, c7, 0, c8);
    let c9: int = 142460584602657int;
    let e9: nat = lemma_bit_step(a, n, e8, c8, 0, c9);
    let c10: int = 1084549957119634int;
    let e10: nat = lemma_bit_step(a, n, e9, c9, 0, c10);
    let c11: int = 1080461158659793int;
    let e11: nat = lemma_bit_step(a, n, e10, c10, 0, c11);
    let c12: int = 772960424580221int;
    let e12: nat = lemma_bit_step(a, n, e11, c11, 1, c12);
    let c13: int = 811442543936487int;
    let e13: nat = lemma_bit_step(a, n, e12, c12, 0, c13);
    let c14: int = 1514683984251661int;
    let e14: nat = lemma_bit_step(a, n, e13, c13, 1, c14);
    let c15: int = 1113683759450937int;
    let e15: nat = lemma_bit_step(a, n, e14, c14, 0, c15);
    let c16: int = 1494067479693012int;
    let e16: nat = lemma_bit_step(a, n, e15, c15, 1, c16);
}

/// Part 2 of the way to: the power 5156902474397 of 11046204280772 modulo
/// 1670836401704629.
proof fn lemma_chain_20_1()
    ensures
        power_is(11046204280772int, 2518018786nat, 1670836401704629int, 826988066168908int),
{
    let a: int = 11046204280772int;
    let n: int = 1670836401704629int;
    lemma_chain_20_0();
    let e0: nat = 38421nat;
    let c0: int = 1494067479693012int;
    let c1: int = 1470387515290701int;
    let e1: nat = lemma_bit_step(a, n, e0, c0, 1, c1);
    let c2: int = 674188219219632int;
    let e2: nat = lemma_bit_step(a, n, e1, c1, 1, c2);
    let c3: int = 1364249210607750int;
    let e3: nat = lemma_bit_step(a, n, e2, c2, 1, c3);
    let c4: int = 1330217670466045int;
    let e4: nat = lemma_bit_step(a, n, e3, c3, 0, c4);
    let c5: int = 185921603602951int;
    let e5: nat = lemma_bit_step(a, n, e4, c4, 1, c5);
    let c6: int = 1245520574938995int;
    let e6: nat = lemma_bit_step(a, n, e5, c5, 0, c6);
    let c7: int = 31384141629922int;
    let e7: nat = lemma_bit_step(a, n, e6, c6, 1, c7);
    let c8: int = 532800708973965int;
    let e8: nat = lemma_bit_step(a, n, e7, c7, 0, c8);
    let c9: int = 338760206885147int;
    let e9: nat = lemma_bit_step(a, n, e8, c8, 1, c9);
    let c10: int = 1321478185456450int;
    let e10: nat = lemma_bit_step(a, n, e9, c9, 1, c10);
    let c11: int = 566863234295377int;
    let e11: nat = lemma_bit_step(a, n, e10, c10, 1, c11);
    let c12: int = 860630985012453int;
    let e12: nat = lemma_bit_step(a, n, e11, c11, 0, c12);
    let c13: int = 1651831741258945int;
    let e13: nat = lemma_bit_step(a, n, e12, c12, 0, c13);
    let c14: int = 1613023119241294int;
    let e14: nat = lemma_bit_step(a, n, e13, c13, 0, c14);
    let c15: int = 498053521471380int;
    let e15: nat = lemma_bit_step(a, n, e14, c14, 1, c15);
    let c16: int = 826988066168908int;
    let e16: nat = lemma_bit_step(a, n, e15, c15, 0, c16);
}

/// The power 5156902474397 of 11046204280772 modulo 1670836401704629.
proof fn lemma_chain_20_2()
    ensures
        power_is(11046204280772int, 5156902474397nat, 1670836401704629int, 1int),
{
    let a: int = 11046204280772int;
    let n: int = 1670836401704629int;
    lemma_chain_20_1();
    let e0: nat = 2518018786nat;
    let c0: int = 826988066168908int;
    let c1: int = 865056267209583int;
    let e1: nat = lemma_bit_step(a, n, e0, c0, 0, c1);
    let c2: int = 287668427336427int;
    let e2: nat = lemma_bit_step(a, n, e1, c1, 1, c2);
    let c3: int = 337174974857465int;
    let e3: nat = lemma_bit_step(a, n, e2, c2, 0, c3);
    let c4: int = 1463454570500538int;
    let e4: nat = lemma_bit_step(a, n, e3, c3, 1, c4);
    let c5: int = 1504549373680653int;
    let e5: nat = lemma_bit_step(a, n, e4, c4, 0, c5);
    let c6: int = 1666035062387111int;
    let e6: nat = lemma_bit_step(a, n, e5, c5, 0, c6);
    let c7: int = 585835722703625int;
    let e7: nat = lemma_bit_step(a, n, e6, c6, 1, c7);
    let c8: int = 951131594771470int;
    let e8: nat = lemma_bit_step(a, n, e7, c7, 1, c8);
    let c9: int = 1670143628958792int;
    let e9: nat = lemma_bit_step(a, n, e8, c8, 1, c9);
    let c10: int = 122502676378192int;
    let e10: nat = lemma_bit_step(a, n, e9, c9, 0, c10);
    let c11: int = 1int;
    let e11: nat = lemma_bit_step(a, n, e10, c10, 1, c11);
}

/// 1670836401704629 is prime, by Pocklington's criterion with the witness 2 and
/// the prime divisors 5156902474397 of its predecessor.
proof fn lemma_prime_1670836401704629()
    ensures
        is_prime(1670836401704629int),
{
    lemma_prime_5156902474397();
    lemma_chain_19_0();
    lemma_chain_20_2();
    lemma_power_of_power(
        2int,
        1670836401704629int,
        324nat,
        11046204280772int,
        5156902474397nat,
        1int,
    );
    lemma_witness(
        1670836401704629int,
        5156902474397int,
        324nat,
        2int,
        11046204280772int,
        735766788910399int,
        (-4864288475532int),
    );
    lemma_pocklington(1670836401704629int, 5156902474397int);
}

/// Part 1 of the way to: the power 948026174865265269726259848413184 of 2
/// modulo
/// 21888242871839275222246405745257275088548364400416034343698204186575808495617.
proof fn lemma_chain_21_0()
    ensures
        power_is(
            2int,
            47863nat,
            modulus(),
            7643061562245303834495276336375976521239212221038662742386636091263831788984int,
        ),
{
    let a: int = 2int;
    let n: int = modulus();
    lemma_chain_start(a, n);
    let e0: nat = 0nat;
    let c0: int = 1int;
    let c1: int = 2int;
    let e1: nat = lemma_bit_step(a, n, e0, c0, 1, c1);
    let c2: int = 4int;
    let e2: nat = lemma_bit_step(a, n, e1, c1, 0, c2);
    let c3: int = 32int;
    let e3: nat = lemma_bit_step(a, n, e2, c2, 1, c3);
    let c4: int = 2048int;
    let e4: nat = lemma_bit_step(a, n, e3, c3, 1, c4);
    let c5: int = 8388608int;
    let e5: nat = lemma_bit_step(a, n, e4, c4, 1, c5);
    let c6: int = 70368744177664int;
    let e6: nat = lemma_bit_step(a, n, e5, c5, 0, c6);
    let c7: int = 9903520314283042199192993792int;
    let e7: nat = lemma_bit_step(a, n, e6, c6, 1, c7);
    let c8: int = 98079714615416886934934209737619787751599303819750539264int;
    let e8: nat = lemma_bit_step(a, n, e7, c7, 0, c8);
    let c9: int = 3495698043062180424293424276942864478603631478588312888568185564161182265760int;
    let e9: nat = lemma_bit_step(a, n, e8, c8, 1, c9);
    let c10: int = 683342410971454129789421161102464845105246981569358911197049191567214980518int;
    let e10: nat = lemma_bit_step(a, n, e9, c9, 1, c10);
    let c11: int = 4178252736633361882938849468673586753165686868234685027908798901145311052483int;
    let e11: nat = lemma_bit_step(a, n, e10, c10, 1, c11);
    let c12: int = 6128442394084188246909100226493096989092498916230794309779919028327380626102int;
    let e12: nat = lemma_bit_step(a, n, e11, c11, 1, c12);
    let c13: int = 4287038017481359547236369560654001995372778663276240691087960217930265461865int;
    let e13: nat = lemma_bit_step(a, n, e12, c12, 0, c13);
    let c14: int = 19945044536827874730278953709984777836565870148438674734439854367975384274895int;
    let e14: nat = lemma_bit_step(a, n, e13, c13, 1, c14);
    let c15: int = 2184700742416846522632719238436360461755162885661464090886489740078869727874int;
    let e15: nat = lemma_bit_step(a, n, e14, c14, 1, c15);
    let c16: int = 7643061562245303834495276336375976521239212221038662742386636091263831788984int;
    let e16: nat = lemma_bit_step(a, n, e15, c15, 1, c16);
}

/// Part 2 of the way to: the power 948026174865265269726259848413184 of 2
/// modulo
/// 21888242871839275222246405745257275088548364400416034343698204186575808495617.
proof fn lemma_chain_21_1()
    ensures
        power_is(
            2int,
            3136755488nat,
            modulus(),
            237301912525965044288198485723843006707600638750601599556766158988129731438int,
        ),
{
    let a: int = 2int;
    let n: int = modulus();
    lemma_chain_21_0();
    let e0: nat = 47863nat;
    let c0: int = 7643061562245303834495276336375976521239212221038662742386636091263831788984int;
    let c1: int = 3438944809604841831852436736338354769656164677760082546304675724933690967247int;
    let e1: nat = lemma_bit_step(a, n, e0, c0, 0, c1);
    let c2: int = 7659209643241512122484122752557507234176540586377996843157824907879398290786int;
    let e2: nat = lemma_bit_step(a, n, e1, c1, 0, c2);
    let c3: int = 18763253047867796994816394458079169978649596714827568093915113845287634272053int;
    let e3: nat = lemma_bit_step(a, n, e2, c2, 0, c3);
    let c4: int = 7949816904728894883241313797041558719925313413050338621190488762467193648727int;
    let e4: nat = lemma_bit_step(a, n, e3, c3, 1, c4);
    let c5: int = 9041413298238414067634291627193031998628889990551041150706317476559677122190int;
    let e5: nat = lemma_bit_step(a, n, e4, c4, 0, c5);
    let c6: int = 19493374781035531509946759367953420075077720681377220355569585979969883532877int;
    let e6: nat = lemma_bit_step(a, n, e5, c5, 1, c6);
    let c7: int = 17338778181254786206802351817770101777151100354557366796471939232055235755495int;
    let e7: nat = lemma_bit_step(a, n, e6, c6, 1, c7);
    let c8: int = 5548464012629041747726572071680392311003330784785643055223681250209281582042int;
    let e8: nat = lemma_bit_step(a, n, e7, c7, 1, c8);
    let c9: int = 1571641657618685174611389636714747673527098316290199013117156410078904412802int;
    let e9: nat = lemma_bit_step(a, n, e8, c8, 0, c9);
    let c10: int = 20555666703154621662406606000502778881715961068649092935860302326390045167500int;
    let e10: nat = lemma_bit_step(a, n, e9, c9, 0, c10);
    let c11: int = 7512436776255843634176802362845698490503658994623506199581386877870445541846int;
    let e11: nat = lemma_bit_step(a, n, e10, c10, 1, c11);
    let c12: int = 11768990373502581538584047052080502866335057946401807821350748120492836012155int;
    let e12: nat = lemma_bit_step(a, n, e11, c11, 0, c12);
    let c13: int = 2402731283448922504696799340772769788113962573421583141453725518288147813354int;
    let e13: nat = lemma_bit_step(a, n, e12, c12, 0, c13);
    let c14: int = 16115522174536389911339361639573658843816537878090415721063258294031486998371int;
    let e14: nat = lemma_bit_step(a, n, e13, c13, 0, c14);
    let c15: int = 18547910507802291486036214842291924065363954793844548164695358659459211699151int;
    let e15: nat = lemma_bit_step(a, n, e14, c14, 0, c15);
    let c16: int = 237301912525965044288198485723843006707600638750601599556766158988129731438int;
    let e16: nat = lemma_bit_step(a, n, e15, c15, 0, c16);
}

/// Part 3 of the way to: the power 948026174865265269726259848413184 of 2
/// modulo
/// 21888242871839275222246405745257275088548364400416034343698204186575808495617.
proof fn lemma_chain_21_2()
    ensures
        power_is(
            2int,
            205570407672408nat,
            modulus(),
            6833087307797491816167125196435315447238093280456905846939843903850147497448int,
        ),
{
    let a: int = 2int;
    let n: int = modulus();
    lemma_chain_21_1();
    let e0: nat = 3136755488nat;
    let c0: int = 237301912525965044288198485723843006707600638750601599556766158988129731438int;
    let c1: int = 7511012902298068091643730008894352811543012315810426360337578562144315195833int;
    let e1: nat = lemma_bit_step(a, n, e0, c0, 0, c1);
    let c2: int = 14601459963791567925085585239001409144125276168500395333304014495767789645402int;
    let e2: nat = lemma_bit_step(a, n, e1, c1, 0, c2);
    let c3: int = 14542440575784112308146698241368579451672999820990563443641854589780047316834int;
    let e3: nat = lemma_bit_step(a, n, e2, c2, 1, c3);
    let c4: int = 18830315893338309055384746006909453708403419219060320622636976353996598938572int;
    let e4: nat = lemma_bit_step(a, n, e3, c3, 0, c4);
    let c5: int = 4996461335652299236224681510478441295097364882978995918573512141954281577837int;
    let e5: nat = lemma_bit_step(a, n, e4, c4, 1, c5);
    let c6: int = 615863375158791046479295267329411045726487295432201979146755512006040680428int;
    let e6: nat = lemma_bit_step(a, n, e5, c5, 0, c6);
    let c7: int = 21428534427967982754442364447463016526691516067250994908912576884287569333112int;
    let e7: nat = lemma_bit_step(a, n, e6, c6, 1, c7);
    let c8: int = 2881846776870378446252739677444854675296576879709586516852528277723308776573int;
    let e8: nat = lemma_bit_step(a, n, e7, c7, 0, c8);
    let c9: int = 975674186049922405038281265866446626916370419405741959048858648406246019622int;
    let e9: nat = lemma_bit_step(a, n, e8, c8, 0, c9);
    let c10: int = 10776130714936673121847152943034932551548514383908132918775987195292463804921int;
    let e10: nat = lemma_bit_step(a, n, e9, c9, 1, c10);
    let c11: int = 3501060622939325221723550589256816874691959298924858620295972010261768278436int;
    let e11: nat = lemma_bit_step(a, n, e10, c10, 0, c11);
    let c12: int = 13448424318156089466239541067763103799885243270638594103324139200620026940023int;
    let e12: nat = lemma_bit_step(a, n, e11, c11, 1, c12);
    let c13: int = 14705453519505307995330609153290309658876798535266815133745559462215113381226int;
    let e13: nat = lemma_bit_step(a, n, e12, c12, 1, c13);
    let c14: int = 3831165978040204488067319906145412081708929870816627290265247926304057320850int;
    let e14: nat = lemma_bit_step(a, n, e13, c13, 0, c14);
    let c15: int = 19012189881481831838744437641325794493114943573920637569288050273298419408395int;
    let e15: nat = lemma_bit_step(a, n, e14, c14, 0, c15);
    let c16: int = 6833087307797491816167125196435315447238093280456905846939843903850147497448int;
    let e16: nat = lemma_bit_step(a, n, e15, c15, 0, c16);
}

/// Part 4 of the way to: the power 948026174865265269726259848413184 of 2
/// modulo
/// 21888242871839275222246405745257275088548364400416034343698204186575808495617.
proof fn lemma_chain_21_3()
    ensures
        power_is(
            2int,
            13472262237218974259nat,
            modulus(),
            20958131683518074203341184186626145426344209056491932222329891275714389900927int,
        ),
{
    let a: int = 2int;
    let n: int = modulus();
    lemma_chain_21_2();
    let e0: nat = 205570407672408nat;
    let c0: int = 6833087307797491816167125196435315447238093280456905846939843903850147497448int;
    let c1: int = 7856047034866197947206914911841353981499642249067212891172556289181342892557int;
    let e1: nat = lemma_bit_step(a, n, e0, c0, 1, c1);
    let c2: int = 6273129052205839970545164780466481252413500430122694314768516248080968574080int;
    let e2: nat = lemma_bit_step(a, n, e1, c1, 0, c2);
    let c3: int = 2600197016147366602343517345697096882713888283375997171376274741851459875905int;
    let e3: nat = lemma_bit_step(a, n, e2, c2, 1, c3);
    let c4: int = 18334341469890741274937013769744110410820127855328678913321315621749944966985int;
    let e4: nat = lemma_bit_step(a, n, e3, c3, 0, c4);
    let c5: int = 1466426009808129911708665247666832199037017371604559362830568111492647947263int;
    let e5: nat = lemma_bit_step(a, n, e4, c4, 1, c5);
    let c6: int = 3121946003212659093068080819325630801594182645828112676265997023472460346825int;
    let e6: nat = lemma_bit_step(a, n, e5, c5, 0, c6);
    let c7: int = 5604713640296807101102635888067154364694882474364537871947138324806210174271int;
    let e7: nat = lemma_bit_step(a, n, e6, c6, 1, c7);
    let c8: int = 16680539197315292238669132393735601779340948210924412072708912534003079304216int;
    let e8: nat = lemma_bit_step(a, n, e7, c7, 0, c8);
    let c9: int = 5531435910273854460604485202953957450306215016024043477396683524246571191879int;
    let e9: nat = lemma_bit_step(a, n, e8, c8, 0, c9);
    let c10: int = 10197565499360844294221463076383361342550683510436045892384485447267239098222int;
    let e10: nat = lemma_bit_step(a, n, e9, c9, 0, c10);
    let c11: int = 16675045097788334644177688266633821503554173174201890538456543140773360876753int;
    let e11: nat = lemma_bit_step(a, n, e10, c10, 1, c11);
    let c12: int = 9615858408683405198197151680671129955789313064786180126066582650909477306971int;
    let e12: nat = lemma_bit_step(a, n, e11, c11, 1, c12);
    let c13: int = 21438489773600941141370841163414553786539371531388977385856700623171511103604int;
    let e13: nat = lemma_bit_step(a, n, e12, c12, 0, c13);
    let c14: int = 11005831895682292616874623241127081979034209184058250271500995095251917767923int;
    let e14: nat = lemma_bit_step(a, n, e13, c13, 0, c14);
    let c15: int = 9621910903599328995520081152867985525711372213690704271988672328849389906498int;
    let e15: nat = lemma_bit_step(a, n, e14, c14, 1, c15);
    let c16: int = 20958131683518074203341184186626145426344209056491932222329891275714389900927int;
    let e16: nat = lemma_bit_step(a, n, e15, c15, 1, c16);
}

/// Part 5 of the way to: the power 948026174865265269726259848413184 of 2
/// modulo
/// 21888242871839275222246405745257275088548364400416034343698204186575808495617.
proof fn lemma_chain_21_4()
    ensures
        power_is(
            2int,
            882918177978382697073984nat,
            modulus(),
            15982174973343244604919164814271745824743303672742305589233964279099940213021int,
        ),
{
    let a: int = 2int;
    let n: int = modulus();
    lemma_chain_21_3();
    let e0: nat = 13472262237218974259nat;
    let c0: int = 20958131683518074203341184186626145426344209056491932222329891275714389900927int;
    let c1: int = 9260808163749251621477277880161078964708696031668442596838052708421179863549int;
    let e1: nat = lemma_bit_step(a, n, e0, c0, 1, c1);
    let c2: int = 13417584175630685511682788580360605484988539702517985764054206291413765466035int;
    let e2: nat = lemma_bit_step(a, n, e1, c1, 0, c2);
    let c3: int = 2737073135561427753749081821020188348534957603465324010054493628783734283297int;
    let e3: nat = lemma_bit_step(a, n, e2, c2, 0, c3);
    let c4: int = 9667532089774494009061619432635606227742254320759412545224038700569997092489int;
    let e4: nat = lemma_bit_step(a, n, e3, c3, 0, c4);
    let c5: int = 1357253473777329698493702931651774823085236120351887775026770730762596160718int;
    let e5: nat = lemma_bit_step(a, n, e4, c4, 1, c5);
    let c6: int = 4998755320182284204689067065847150105674725960292378345315704547477701871666int;
    let e6: nat = lemma_bit_step(a, n, e5, c5, 1, c6);
    let c7: int = 9070846536438772505491004034752252544752740686062823770317167409276154117442int;
    let e7: nat = lemma_bit_step(a, n, e6, c6, 0, c7);
    let c8: int = 653303007241731512796586821163761525798825065657732063651183085957381037173int;
    let e8: nat = lemma_bit_step(a, n, e7, c7, 1, c8);
    let c9: int = 10201388310241605023587969740772969209327549779200181896757880614794769090139int;
    let e9: nat = lemma_bit_step(a, n, e8, c8, 0, c9);
    let c10: int = 15745267001599969865780052382846235557376723581615501627813198049607326788057int;
    let e10: nat = lemma_bit_step(a, n, e9, c9, 1, c10);
    let c11: int = 15192809858560222922136799324560781275794736479214981642689923634134943281996int;
    let e11: nat = lemma_bit_step(a, n, e10, c10, 0, c11);
    let c12: int = 21683234898089000903237043869030906439642099879054012436225660003973813222615int;
    let e12: nat = lemma_bit_step(a, n, e11, c11, 0, c12);
    let c13: int = 4242079070243085143808859039540845276163467389411898828449605027646555005537int;
    let e13: nat = lemma_bit_step(a, n, e12, c12, 0, c13);
    let c14: int = 17242717454821934955789451689723350474215049300956985455238483018179966587196int;
    let e14: nat = lemma_bit_step(a, n, e13, c13, 0, c14);
    let c15: int = 8505690545419950234256866895908666302008161474991687386772575559995860058170int;
    let e15: nat = lemma_bit_step(a, n, e14, c14, 0, c15);
    let c16: int = 15982174973343244604919164814271745824743303672742305589233964279099940213021int;
    let e16: nat = lemma_bit_step(a, n, e15, c15, 0, c16);
}

/// Part 6 of the way to: the power 948026174865265269726259848413184 of 2
/// modulo
/// 21888242871839275222246405745257275088548364400416034343698204186575808495617.
proof fn lemma_chain_21_5()
    ensures
        power_is(
            2int,
            57862925711991288435440664576nat,
            modulus(),
            10005690243391103465823861620864416769189617702240363279543358135518111101018int,
        ),
{
    let a: int = 2int;
    let n: int = modulus();
    lemma_chain_21_4();
    let e0: nat = 882918177978382697073984nat;
    let c0: int = 15982174973343244604919164814271745824743303672742305589233964279099940213021int;
    let c1: int = 8130209490000835130911799783110670146031158794342866311038594388506323595370int;
    let e1: nat = lemma_bit_step(a, n, e0, c0, 1, c1);
    let c2: int = 11945868222316804880392745220810750588513885904109248741549072835227521884524int;
    let e2: nat = lemma_bit_step(a, n, e1, c1, 1, c2);
    let c3: int = 18249286758231888828232633349383762943278274086387328341783668769586213507722int;
    let e3: nat = lemma_bit_step(a, n, e2, c2, 0, c3);
    let c4: int = 3248337901750163290226300140871615234990176503775455595544337043403165044849int;
    let e4: nat = lemma_bit_step(a, n, e3, c3, 0, c4);
    let c5: int = 84340426960347587331228640469535379432493425561268398289583357508349416281int;
    let e5: nat = lemma_bit_step(a, n, e4, c4, 0, c5);
    let c6: int = 5913974528731395704055590681857956724009853598974884908819574694993566820917int;
    let e6: nat = lemma_bit_step(a, n, e5, c5, 0, c6);
    let c7: int = 13003192062536422660172853358970393330843023541204102854951771168255628612827int;
    let e7: nat = lemma_bit_step(a, n, e6, c6, 0, c7);
    let c8: int = 10839653678352608288574077155794139931985331812076842920454576538625137236287int;
    let e8: nat = lemma_bit_step(a, n, e7, c7, 0, c8);
    let c9: int = 14337687431541349900494088126148576827330124827659086315983624379639746844548int;
    let e9: nat = lemma_bit_step(a, n, e8, c8, 0, c9);
    let c10: int = 16111008459028796491357257069247621992653499540979973157550853407109493280547int;
    let e10: nat = lemma_bit_step(a, n, e9, c9, 0, c10);
    let c11: int = 8503256354671486288158502225198393077229691433040010644616391275503237275164int;
    let e11: nat = lemma_bit_step(a, n, e10, c10, 0, c11);
    let c12: int = 10513002122215437020565315871481284487610256077402723252469598904339673518651int;
    let e12: nat = lemma_bit_step(a, n, e11, c11, 0, c12);
    let c13: int = 20176012481099705162664108572579700358062203357888934560480268125411938152368int;
    let e13: nat = lemma_bit_step(a, n, e12, c12, 0, c13);
    let c14: int = 13999309723704896655093909720466623897887431451786101092779649805378195241726int;
    let e14: nat = lemma_bit_step(a, n, e13, c13, 0, c14);
    let c15: int = 11135738911988498949490634905147470139790419925587037658370573189436193316164int;
    let e15: nat = lemma_bit_step(a, n, e14, c14, 0, c15);
    let c16: int = 10005690243391103465823861620864416769189617702240363279543358135518111101018int;
    let e16: nat = lemma_bit_step(a, n, e15, c15, 0, c16);
}

/// The power 948026174865265269726259848413184 of 2 modulo
/// 21888242871839275222246405745257275088548364400416034343698204186575808495617.
proof fn lemma_chain_21_6()
    ensures
        power_is(
            2int,
            948026174865265269726259848413184nat,
            modulus(),
            4067217240286848671452265983065331897323918408910809300406102239489012348584int,
        ),
{
    let a: int = 2int;
    let n: int = modulus();
    lemma_chain_21_5();
    let e0: nat = 57862925711991288435440664576nat;
    let c0: int = 10005690243391103465823861620864416769189617702240363279543358135518111101018int;
    let c1: int = 331764745599384777040012275816909840990653227752567488156647690213465239935int;
    let e1: nat = lemma_bit_step(a, n, e0, c0, 0, c1);
    let c2: int = 13398049774576265121776226031696507244231951467966789327619461861234582477336int;
    let e2: nat = lemma_bit_step(a, n, e1, c1, 0, c2);
    let c3: int = 19206512275381823351211743878037353161841939005408348134056828614133676433630int;
    let e3: nat = lemma_bit_step(a, n, e2, c2, 0, c3);
    let c4: int = 12471946223622596903652224200655951809960424341965718686258418838648530619466int;
    let e4: nat = lemma_bit_step(a, n, e3, c3, 0, c4);
    let c5: int = 10978677361024812805047105779656343014873961213011512324751885668323619176068int;
    let e5: nat = lemma_bit_step(a, n, e4, c4, 0, c5);
    let c6: int = 3448705218317408161449204634518925392994915746829930127077269264410066469874int;
    let e6: nat = lemma_bit_step(a, n, e5, c5, 0, c6);
    let c7: int = 2703284341874308880966499655651041630414472167790620982767336586753775729364int;
    let e7: nat = lemma_bit_step(a, n, e6, c6, 0, c7);
    let c8: int = 6064349947684875415109668276131994854241967342142240807603972595444590220725int;
    let e8: nat = lemma_bit_step(a, n, e7, c7, 0, c8);
    let c9: int = 10921317795954514300196838913030540274007574537953393019742822437199370873228int;
    let e9: nat = lemma_bit_step(a, n, e8, c8, 0, c9);
    let c10: int = 6759105087829623030394333892647320251163831514879915362135960632262716527630int;
    let e10: nat = lemma_bit_step(a, n, e9, c9, 0, c10);
    let c11: int = 14280935655352523159274565788554086226104130832730524002838009447259458104640int;
    let e11: nat = lemma_bit_step(a, n, e10, c10, 0, c11);
    let c12: int = 8903078699255337328499361019425491072382086563893157380695674794362281202370int;
    let e12: nat = lemma_bit_step(a, n, e11, c11, 0, c12);
    let c13: int = 10739194169618916720421681367163863068496094056825369984700770039998726680593int;
    let e13: nat = lemma_bit_step(a, n, e12, c12, 0, c13);
    let c14: int = 4067217240286848671452265983065331897323918408910809300406102239489012348584int;
    let e14: nat = lemma_bit_step(a, n, e13, c13, 0, c14);
}

/// Part 1 of the way to: the power 13818364434197438864469338081 of
/// 4067217240286848671452265983065331897323918408910809300406102239489012348584
/// modulo
/// 21888242871839275222246405745257275088548364400416034343698204186575808495617.
proof fn lemma_chain_22_0()
    ensures
        power_is(
            4067217240286848671452265983065331897323918408910809300406102239489012348584int,
            45721nat,
            modulus(),
            16756864658871320450095273195180880641604926711322431787730799836997373410354int,
        ),
{
    let a: int = 4067217240286848671452265983065331897323918408910809300406102239489012348584int;
    let n: int = modulus();
    lemma_chain_start(a, n);
    let e0: nat = 0nat;
    let c0: int = 1int;
    let c1: int = 4067217240286848671452265983065331897323918408910809300406102239489012348584int;
    let e1: nat = lemma_bit_step(a, n, e0, c0, 1, c1);
    let c2: int = 6386128151552337324797274583854449461328952692055052099188299042347749289856int;
    let e2: nat = lemma_bit_step(a, n, e1, c1, 0, c2);
    let c3: int = 13238749333881657106705305701460976550231994495162614680963707438086684607956int;
    let e3: nat = lemma_bit_step(a, n, e2, c2, 1, c3);
    let c4: int = 18235214667583589543951801634235952074735239039809855166216398886623174770170int;
    let e4: nat = lemma_bit_step(a, n, e3, c3, 1, c4);
    let c5: int = 1288997372873894118674429447566628158949100853897385711408161458452740640627int;
    let e5: nat = lemma_bit_step(a, n, e4, c4, 0, c5);
    let c6: int = 15690779842328926225178139205895459096464320036664936154393060137259290834393int;
    let e6: nat = lemma_bit_step(a, n, e5, c5, 0, c6);
    let c7: int = 13173298813643711737179302085214610697279240735107614677224675207364830978182int;
    let e7: nat = lemma_bit_step(a, n, e6, c6, 1, c7);
    let c8: int = 322279440271549901376250450420437350979799894640243819907063974485294944136int;
    let e8: nat = lemma_bit_step(a, n, e7, c7, 0, c8);
    let c9: int = 2245064824354248286679342940486692975493608882238035819151494060537236815295int;
    let e9: nat = lemma_bit_step(a, n, e8, c8, 1, c9);
    let c10: int = 8331070091348222178773989349913912596977031367117088757543672891609074423287int;
    let e10: nat = lemma_bit_step(a, n, e9, c9, 0, c10);
    let c11: int = 12667046771045494802178413368679114212491105066976080789176656999746571351203int;
    let e11: nat = lemma_bit_step(a, n, e10, c10, 0, c11);
    let c12: int = 15827951676866950978480705088063065647227592502537696711884223207658011461825int;
    let e12: nat = lemma_bit_step(a, n, e11, c11, 1, c12);
    let c13: int = 4129378618719945238528942755173379432660584193305857177386644435705518597878int;
    let e13: nat = lemma_bit_step(a, n, e12, c12, 1, c13);
    let c14: int = 10458104519330016722831481621403436636955250855373893914012587466407818324273int;
    let e14: nat = lemma_bit_step(a, n, e13, c13, 0, c14);
    let c15: int = 11769321296240754857159015325324246551457538439433399936088370602366527173957int;
    let e15: nat = lemma_bit_step(a, n, e14, c14, 0, c15);
    let c16: int = 16756864658871320450095273195180880641604926711322431787730799836997373410354int;
    let e16: nat = lemma_bit_step(a, n, e15, c15, 1, c16);
}

/// Part 2 of the way to: the power 13818364434197438864469338081 of
/// 4067217240286848671452265983065331897323918408910809300406102239489012348584
/// modulo
/// 21888242871839275222246405745257275088548364400416034343698204186575808495617.
proof fn lemma_chain_22_1()
    ensures
        power_is(
            4067217240286848671452265983065331897323918408910809300406102239489012348584int,
            2996380147nat,
            modulus(),
            15163491663097307426775935029443471516423968862012532239894848497372879771217int,
        ),
{
    let a: int = 4067217240286848671452265983065331897323918408910809300406102239489012348584int;
    let n: int = modulus();
    lemma_chain_22_0();
    let e0: nat = 45721nat;
    let c0: int = 16756864658871320450095273195180880641604926711322431787730799836997373410354int;
    let c1: int = 6943614995187790184461278975748870673550572024828415223526584612224810856355int;
    let e1: nat = lemma_bit_step(a, n, e0, c0, 0, c1);
    let c2: int = 8991047338903701344465700219764455985598459812798333318036451612940826546584int;
    let e2: nat = lemma_bit_step(a, n, e1, c1, 0, c2);
    let c3: int = 17255749339708772468702835095330842957291988632782577699678909486920154606123int;
    let e3: nat = lemma_bit_step(a, n, e2, c2, 1, c3);
    let c4: int = 12883796233184062843736358331100949234592082913561501216067886227392315875192int;
    let e4: nat = lemma_bit_step(a, n, e3, c3, 0, c4);
    let c5: int = 9770850255500642612015481770119071864395119245686384862019573412074575455946int;
    let e5: nat = lemma_bit_step(a, n, e4, c4, 0, c5);
    let c6: int = 12095636939347330833732765030336417394965874111430562556378896893108398454119int;
    let e6: nat = lemma_bit_step(a, n, e5, c5, 0, c6);
    let c7: int = 9507605597525390686538863425556769346087544750265253773189062091554424285870int;
    let e7: nat = lemma_bit_step(a, n, e6, c6, 0, c7);
    let c8: int = 17932252103664813779789761201706523010451593166390460567050985375098762470480int;
    let e8: nat = lemma_bit_step(a, n, e7, c7, 1, c8);
    let c9: int = 12309853391631169412178147450549824040430213212920648749297835878884690312497int;
    let e9: nat = lemma_bit_step(a, n, e8, c8, 1, c9);
    let c10: int = 6397909464072761120344264436936460029626824980159215597280672028817779616915int;
    let e10: nat = lemma_bit_step(a, n, e9, c9, 1, c10);
    let c11: int = 3219671312949103112293517916515892400845711183894622300969600016031624148330int;
    let e11: nat = lemma_bit_step(a, n, e10, c10, 1, c11);
    let c12: int = 6985301711244392811534689828185490242462090338917601161141202278988258793136int;
    let e12: nat = lemma_bit_step(a, n, e11, c11, 1, c12);
    let c13: int = 15477340730401846645086238635474869418539835280761178378124023793220802160916int;
    let e13: nat = lemma_bit_step(a, n, e12, c12, 0, c13);
    let c14: int = 10313897862990299760702963901803177025774364084358126394163006552579881462819int;
    let e14: nat = lemma_bit_step(a, n, e13, c13, 0, c14);
    let c15: int = 17589055784178759111070885171527556640522402248488547059058602451317034487787int;
    let e15: nat = lemma_bit_step(a, n, e14, c14, 1, c15);
    let c16: int = 15163491663097307426775935029443471516423968862012532239894848497372879771217int;
    let e16: nat = lemma_bit_step(a, n, e15, c15, 1, c16);
}

/// Part 3 of the way to: the power 13818364434197438864469338081 of
/// 4067217240286848671452265983065331897323918408910809300406102239489012348584
/// modulo
/// 21888242871839275222246405745257275088548364400416034343698204186575808495617.
proof fn lemma_chain_22_2()
    ensures
        power_is(
            4067217240286848671452265983065331897323918408910809300406102239489012348584int,
            196370769376094nat,
            modulus(),
            4750830227225810007906518413343663643318915987128822730455329789502939495942int,
        ),
{
    let a: int = 4067217240286848671452265983065331897323918408910809300406102239489012348584int;
    let n: int = modulus();
    lemma_chain_22_1();
    let e0: nat = 2996380147nat;
    let c0: int = 15163491663097307426775935029443471516423968862012532239894848497372879771217int;
    let c1: int = 8774308505907646167718963882772335573991679543987945496359139924536809344630int;
    let e1: nat = lemma_bit_step(a, n, e0, c0, 1, c1);
    let c2: int = 4360106451514481464721713496424723400798790380683325742569740933810930518178int;
    let e2: nat = lemma_bit_step(a, n, e1, c1, 1, c2);
    let c3: int = 16275990781278437665973487256671914822435420161255505334169214138706511784308int;
    let e3: nat = lemma_bit_step(a, n, e2, c2, 1, c3);
    let c4: int = 12908843361958514409970798626683577113045421806131553996538402805853312669057int;
    let e4: nat = lemma_bit_step(a, n, e3, c3, 1, c4);
    let c5: int = 15850970691890243089482215803048181198926331942782704813483344156263675016861int;
    let e5: nat = lemma_bit_step(a, n, e4, c4, 0, c5);
    let c6: int = 5942717412744519372674371151679237225322652170292377397675585158938566471780int;
    let e6: nat = lemma_bit_step(a, n, e5, c5, 0, c6);
    let c7: int = 8255683465666442761579655988386288657752929912244757012881944873905729439666int;
    let e7: nat = lemma_bit_step(a, n, e6, c6, 1, c7);
    let c8: int = 8933294398425247314210147661629234955545203082959819655240752488267388538944int;
    let e8: nat = lemma_bit_step(a, n, e7, c7, 1, c8);
    let c9: int = 20589560274980379214084547539109098494065169183095438179620761793679251393232int;
    let e9: nat = lemma_bit_step(a, n, e8, c8, 0, c9);
    let c10: int = 8418233930617165357431503676748888633218726706654762616692112999670484591013int;
    let e10: nat = lemma_bit_step(a, n, e9, c9, 1, c10);
    let c11: int = 4566702606335355684617681975246617155269938832967097132898735221559711173008int;
    let e11: nat = lemma_bit_step(a, n, e10, c10, 0, c11);
    let c12: int = 9632572101324037071725150039192784219590497799446190285410544024774523080908int;
    let e12: nat = lemma_bit_step(a, n, e11, c11, 1, c12);
    let c13: int = 17035566344259445387961708867887004296684509652717054829010794272049281788674int;
    let e13: nat = lemma_bit_step(a, n, e12, c12, 1, c13);
    let c14: int = 9433521811091422581917263520702365715911069060317711582080456248494772571446int;
    let e14: nat = lemma_bit_step(a, n, e13, c13, 1, c14);
    let c15: int = 13287746691144869625755073493729930970517240241830886362964485388273762127681int;
    let e15: nat = lemma_bit_step(a, n, e14, c14, 1, c15);
    let c16: int = 4750830227225810007906518413343663643318915987128822730455329789502939495942int;
    let e16: nat = lemma_bit_step(a, n, e15, c15, 0, c16);
}

/// Part 4 of the way to: the power 13818364434197438864469338081 of
/// 4067217240286848671452265983065331897323918408910809300406102239489012348584
/// modulo
/// 21888242871839275222246405745257275088548364400416034343698204186575808495617.
proof fn lemma_chain_22_3()
    ensures
        power_is(
            4067217240286848671452265983065331897323918408910809300406102239489012348584int,
            12869354741831718817nat,
            modulus(),
            8448855219633365442930076917076713833781771384361585343893523329149156935516int,
        ),
{
    let a: int = 4067217240286848671452265983065331897323918408910809300406102239489012348584int;
    let n: int = modulus();
    lemma_chain_22_2();
    let e0: nat = 196370769376094nat;
    let c0: int = 4750830227225810007906518413343663643318915987128822730455329789502939495942int;
    let c1: int = 13035012408524470688048890970779970865574813919356132780678283705956544177429int;
    let e1: nat = lemma_bit_step(a, n, e0, c0, 0, c1);
    let c2: int = 15822093576658666881427783006931272225564788928357168789168489701542569875099int;
    let e2: nat = lemma_bit_step(a, n, e1, c1, 1, c2);
    let c3: int = 3719599298707220935519581306666305268106104332808068259719769041556434773545int;
    let e3: nat = lemma_bit_step(a, n, e2, c2, 0, c3);
    let c4: int = 16488772292108595495196916561729099074282002522665119535106490879714874084163int;
    let e4: nat = lemma_bit_step(a, n, e3, c3, 1, c4);
    let c5: int = 13603827057977326222825039562786194027668125986724652168226315764695294052828int;
    let e5: nat = lemma_bit_step(a, n, e4, c4, 0, c5);
    let c6: int = 1315841031531098173455288590474915687435097755906924751602998016417667498287int;
    let e6: nat = lemma_bit_step(a, n, e5, c5, 1, c6);
    let c7: int = 15005189500114784470962934044622831401421069766145204589765605152476845736280int;
    let e7: nat = lemma_bit_step(a, n, e6, c6, 1, c7);
    let c8: int = 19203033309775340860165864868710163867300644892515281368802815574887290727192int;
    let e8: nat = lemma_bit_step(a, n, e7, c7, 1, c8);
    let c9: int = 19230770693470763340047203724271439005045606495543459833317496287168551806242int;
    let e9: nat = lemma_bit_step(a, n, e8, c8, 1, c9);
    let c10: int = 2553140948483930812412285981849370959439675767789630126167664254901483265300int;
    let e10: nat = lemma_bit_step(a, n, e9, c9, 0, c10);
    let c11: int = 15321002091107413318387067756832217181635022620875600912656324139269427047772int;
    let e11: nat = lemma_bit_step(a, n, e10, c10, 1, c11);
    let c12: int = 3735539871592816921233875031721838089614317682464056078135447190026190839187int;
    let e12: nat = lemma_bit_step(a, n, e11, c11, 0, c12);
    let c13: int = 5622234682029930222013353172987696945412828110536454300652095428619831202102int;
    let e13: nat = lemma_bit_step(a, n, e12, c12, 0, c13);
    let c14: int = 18844765288437987799138213223672211085117726746507232125190001470484912400462int;
    let e14: nat = lemma_bit_step(a, n, e13, c13, 0, c14);
    let c15: int = 7523718886118463129846387865457920449501969533277957321152108701234010709627int;
    let e15: nat = lemma_bit_step(a, n, e14, c14, 0, c15);
    let c16: int = 8448855219633365442930076917076713833781771384361585343893523329149156935516int;
    let e16: nat = lemma_bit_step(a, n, e15, c15, 1, c16);
}

/// Part 5 of the way to: the power 13818364434197438864469338081 of
/// 4067217240286848671452265983065331897323918408910809300406102239489012348584
/// modulo
/// 21888242871839275222246405745257275088548364400416034343698204186575808495617.
proof fn lemma_chain_22_4()
    ensures
        power_is(
            4067217240286848671452265983065331897323918408910809300406102239489012348584int,
            843406032360683524442708nat,
            modulus(),
            13752811589034656140198374221163509499005731150836489101685730465413837061152int,
        ),
{
    let a: int = 4067217240286848671452265983065331897323918408910809300406102239489012348584int;
    let n: int = modulus();
    lemma_chain_22_3();
    let e0: nat = 12869354741831718817nat;
    let c0: int = 8448855219633365442930076917076713833781771384361585343893523329149156935516int;
    let c1: int = 2485468583532904484309971878075628398701936183570298080274931589456331496581int;
    let e1: nat = lemma_bit_step(a, n, e0, c0, 1, c1);
    let c2: int = 1763832830497479334436111597000920668523750036536595945067692152000206613291int;
    let e2: nat = lemma_bit_step(a, n, e1, c1, 1, c2);
    let c3: int = 4754162372059473949949476388979884147853939201566546687556588625308015404386int;
    let e3: nat = lemma_bit_step(a, n, e2, c2, 0, c3);
    let c4: int = 20695525597621049728423917252705535360718712876837599263275890881026111584040int;
    let e4: nat = lemma_bit_step(a, n, e3, c3, 0, c4);
    let c5: int = 8619588954376863221941865514652255422133586179693120934634395982893756521661int;
    let e5: nat = lemma_bit_step(a, n, e4, c4, 1, c5);
    let c6: int = 10639978108994546607145882244949613283667110026118833070157686786853029213187int;
    let e6: nat = lemma_bit_step(a, n, e5, c5, 0, c6);
    let c7: int = 13627864570041653680197465217859677761735974344822760502413668374746291405744int;
    let e7: nat = lemma_bit_step(a, n, e6, c6, 1, c7);
    let c8: int = 1478584894689212060068135389439125610477393433539067448973187960356152469803int;
    let e8: nat = lemma_bit_step(a, n, e7, c7, 0, c8);
    let c9: int = 12515350210104563293978980042340580153099941256207686398934436282461959491345int;
    let e9: nat = lemma_bit_step(a, n, e8, c8, 0, c9);
    let c10: int = 6519667857248721620883404089629190453555380526572180117778616129766941648535int;
    let e10: nat = lemma_bit_step(a, n, e9, c9, 1, c10);
    let c11: int = 16823438310195457458335840215215656924725445978201061907958243556984777076296int;
    let e11: nat = lemma_bit_step(a, n, e10, c10, 0, c11);
    let c12: int = 4886056033106486036989241819198674686430448265622916628618894665609786197276int;
    let e12: nat = lemma_bit_step(a, n, e11, c11, 1, c12);
    let c13: int = 10822208400466322192593064883454053686531874372810959438678408134393112980376int;
    let e13: nat = lemma_bit_step(a, n, e12, c12, 0, c13);
    let c14: int = 6240833133448105338207581245949004484552400747577623356912084461759335556916int;
    let e14: nat = lemma_bit_step(a, n, e13, c13, 1, c14);
    let c15: int = 991543666436373524661697283520663894700297870464559561035400420715937077869int;
    let e15: nat = lemma_bit_step(a, n, e14, c14, 0, c15);
    let c16: int = 13752811589034656140198374221163509499005731150836489101685730465413837061152int;
    let e16: nat = lemma_bit_step(a, n, e15, c15, 0, c16);
}

/// The power 13818364434197438864469338081 of
/// 4067217240286848671452265983065331897323918408910809300406102239489012348584
/// modulo
/// 21888242871839275222246405745257275088548364400416034343698204186575808495617.
proof fn lemma_chain_22_5()
    ensures
        power_is(
            4067217240286848671452265983065331897323918408910809300406102239489012348584int,
            13818364434197438864469338081nat,
            modulus(),
            15379204794002667769298530452756604474647348591674452342013272253614090326003int,
        ),
{
    let a: int = 4067217240286848671452265983065331897323918408910809300406102239489012348584int;
    let n: int = modulus();
    lemma_chain_22_4();
    let e0: nat = 843406032360683524442708nat;
    let c0: int = 13752811589034656140198374221163509499005731150836489101685730465413837061152int;
    let c1: int = 352558901267652380186996644674176934081529659241928266274750804435919316555int;
    let e1: nat = lemma_bit_step(a, n, e0, c0, 1, c1);
    let c2: int = 9975287918602860911580010553136500836149672040675543073036316873641214829324int;
    let e2: nat = lemma_bit_step(a, n, e1, c1, 0, c2);
    let c3: int = 19639817482156684147517007369548089218135951793141269477014961025414798861115int;
    let e3: nat = lemma_bit_step(a, n, e2, c2, 0, c3);
    let c4: int = 17139637903830095634697455424442797323363989037643635193072045733059952354744int;
    let e4: nat = lemma_bit_step(a, n, e3, c3, 1, c4);
    let c5: int = 914217616237613439280475637734921588667706267016512353212528249498655370278int;
    let e5: nat = lemma_bit_step(a, n, e4, c4, 1, c5);
    let c6: int = 5734933231541450750267406738314736704308586995611790329229868807038284262457int;
    let e6: nat = lemma_bit_step(a, n, e5, c5, 1, c6);
    let c7: int = 1625336039193904959347094447000372437051439332362963296612616483220024776204int;
    let e7: nat = lemma_bit_step(a, n, e6, c6, 1, c7);
    let c8: int = 15263095476177339472893572712441658830053824967875597941275658689623180726528int;
    let e8: nat = lemma_bit_step(a, n, e7, c7, 1, c8);
    let c9: int = 7542659160410816238180733372451276273740009883376419805240252310437459932401int;
    let e9: nat = lemma_bit_step(a, n, e8, c8, 1, c9);
    let c10: int = 10843790727256262470749371154007731033265095714211366053529959999110654158998int;
    let e10: nat = lemma_bit_step(a, n, e9, c9, 0, c10);
    let c11: int = 10632113430971557868806697034540995537436250121514722732420480920928142450155int;
    let e11: nat = lemma_bit_step(a, n, e10, c10, 0, c11);
    let c12: int = 3719498549793441748256527655810202249197363423147539062687900885823491432443int;
    let e12: nat = lemma_bit_step(a, n, e11, c11, 0, c12);
    let c13: int = 10600766886418851235272489342044404584634817502004706251536578012124037294019int;
    let e13: nat = lemma_bit_step(a, n, e12, c12, 0, c13);
    let c14: int = 15379204794002667769298530452756604474647348591674452342013272253614090326003int;
    let e14: nat = lemma_bit_step(a, n, e13, c13, 1, c14);
}

/// Part 1 of the way to: the power 1670836401704629 of
/// 4067217240286848671452265983065331897323918408910809300406102239489012348584
/// modulo
/// 21888242871839275222246405745257275088548364400416034343698204186575808495617.
proof fn lemma_chain_23_0()
    ensures
        power_is(
            4067217240286848671452265983065331897323918408910809300406102239489012348584int,
            48627nat,
            modulus(),
            9325841753298288981327243965167196678152097785136296273988568482195482840064int,
        ),
{
    let a: int = 4067217240286848671452265983065331897323918408910809300406102239489012348584int;
    let n: int = modulus();
    lemma_chain_start(a, n);
    let e0: nat = 0nat;
    let c0: int = 1int;
    let c1: int = 4067217240286848671452265983065331897323918408910809300406102239489012348584int;
    let e1: nat = lemma_bit_step(a, n, e0, c0, 1, c1);
    let c2: int = 6386128151552337324797274583854449461328952692055052099188299042347749289856int;
    let e2: nat = lemma_bit_step(a, n, e1, c1, 0, c2);
    let c3: int = 13238749333881657106705305701460976550231994495162614680963707438086684607956int;
    let e3: nat = lemma_bit_step(a, n, e2, c2, 1, c3);
    let c4: int = 18235214667583589543951801634235952074735239039809855166216398886623174770170int;
    let e4: nat = lemma_bit_step(a, n, e3, c3, 1, c4);
    let c5: int = 5721131295557846781104367113352519192469116605711557781285702042069833871793int;
    let e5: nat = lemma_bit_step(a, n, e4, c4, 1, c5);
    let c6: int = 12810263647494063624899643005593105044648157316317501937529150065277159817662int;
    let e6: nat = lemma_bit_step(a, n, e5, c5, 1, c6);
    let c7: int = 15521610032794111276804907384116859780422607459397412237403815305009698800648int;
    let e7: nat = lemma_bit_step(a, n, e6, c6, 0, c7);
    let c8: int = 20249946399921792289729088424322791431150985492773860345737646188678972519942int;
    let e8: nat = lemma_bit_step(a, n, e7, c7, 1, c8);
    let c9: int = 2325033620393259197726907208139781713137842775629757278593502222859102667422int;
    let e9: nat = lemma_bit_step(a, n, e8, c8, 1, c9);
    let c10: int = 2052119478645401982669655604481129688026327006196986550614253311576832213479int;
    let e10: nat = lemma_bit_step(a, n, e9, c9, 1, c10);
    let c11: int = 5305523791343338888340056854512443001811805487901587631041101707290939404956int;
    let e11: nat = lemma_bit_step(a, n, e10, c10, 1, c11);
    let c12: int = 7735245295831313213036549589517340446169467307398702275906908461849736090975int;
    let e12: nat = lemma_bit_step(a, n, e11, c11, 1, c12);
    let c13: int = 13735901650901636859524824971859910367121242378529385750786171991516679521694int;
    let e13: nat = lemma_bit_step(a, n, e12, c12, 0, c13);
    let c14: int = 14591299263583869058937788839531601423586197208846154139957573506839701511840int;
    let e14: nat = lemma_bit_step(a, n, e13, c13, 0, c14);
    let c15: int = 9518441876853481861736351359352991275527267624348828572263517916303564912401int;
    let e15: nat = lemma_bit_step(a, n, e14, c14, 1, c15);
    let c16: int = 9325841753298288981327243965167196678152097785136296273988568482195482840064int;
    let e16: nat = lemma_bit_step(a, n, e15, c15, 1, c16);
}

/// Part 2 of the way to: the power 1670836401704629 of
/// 4067217240286848671452265983065331897323918408910809300406102239489012348584
/// modulo
/// 21888242871839275222246405745257275088548364400416034343698204186575808495617.
proof fn lemma_chain_23_1()
    ensures
        power_is(
            4067217240286848671452265983065331897323918408910809300406102239489012348584int,
            3186867526nat,
            modulus(),
            8125547412493835302655544292277789516896418318486148577548235680118494358722int,
        ),
{
    let a: int = 4067217240286848671452265983065331897323918408910809300406102239489012348584int;
    let n: int = modulus();
    lemma_chain_23_0();
    let e0: nat = 48627nat;
    let c0: int = 9325841753298288981327243965167196678152097785136296273988568482195482840064int;
    let c1: int = 6707506584316207971952693228392950314584709399326875711445791268897704110998int;
    let e1: nat = lemma_bit_step(a, n, e0, c0, 1, c1);
    let c2: int = 3495823615951955709076375045691282919196805517726921210770951285651493961704int;
    let e2: nat = lemma_bit_step(a, n, e1, c1, 0, c2);
    let c3: int = 17875055090506025240356370126492227312793770017793380228434757736587311268860int;
    let e3: nat = lemma_bit_step(a, n, e2, c2, 1, c3);
    let c4: int = 11701486533829588687374114121175543927091329153289072077623892470291851896593int;
    let e4: nat = lemma_bit_step(a, n, e3, c3, 1, c4);
    let c5: int = 7606880730808735089449470056962104616761148653896049807680072281808978620232int;
    let e5: nat = lemma_bit_step(a, n, e4, c4, 1, c5);
    let c6: int = 7694521371516738082169058418996934346672614130827311342067208072937893629701int;
    let e6: nat = lemma_bit_step(a, n, e5, c5, 1, c6);
    let c7: int = 8679339286862363761504163591784019976629085217846334212063598421905203773607int;
    let e7: nat = lemma_bit_step(a, n, e6, c6, 0, c7);
    let c8: int = 403207217671821601991585014264709338448349712570319674836587866291851246368int;
    let e8: nat = lemma_bit_step(a, n, e7, c7, 1, c8);
    let c9: int = 20044427735584441310161981030940585478683319332165119004897426775409179126663int;
    let e9: nat = lemma_bit_step(a, n, e8, c8, 0, c9);
    let c10: int = 8232648074631320254692952416522314971505800744418523364714398676793187570305int;
    let e10: nat = lemma_bit_step(a, n, e9, c9, 1, c10);
    let c11: int = 8629976415322310111913236549513323322989871275047921905490991820742268879913int;
    let e11: nat = lemma_bit_step(a, n, e10, c10, 0, c11);
    let c12: int = 17980366041083543859030201235106264289727395210669349329180701586110605329295int;
    let e12: nat = lemma_bit_step(a, n, e11, c11, 0, c12);
    let c13: int = 11007829547199563644351345885759890439753192393307999906038004399823998109294int;
    let e13: nat = lemma_bit_step(a, n, e12, c12, 0, c13);
    let c14: int = 11284752815286972314426066890838572785018453659598163493074748069494488677795int;
    let e14: nat = lemma_bit_step(a, n, e13, c13, 1, c14);
    let c15: int = 13768756505859399311183560326960825250207199533332247115294768620812113250806int;
    let e15: nat = lemma_bit_step(a, n, e14, c14, 1, c15);
    let c16: int = 8125547412493835302655544292277789516896418318486148577548235680118494358722int;
    let e16: nat = lemma_bit_step(a, n, e15, c15, 0, c16);
}

/// Part 3 of the way to: the power 1670836401704629 of
/// 4067217240286848671452265983065331897323918408910809300406102239489012348584
/// modulo
/// 21888242871839275222246405745257275088548364400416034343698204186575808495617.
proof fn lemma_chain_23_2()
    ensures
        power_is(
            4067217240286848671452265983065331897323918408910809300406102239489012348584int,
            208854550213078nat,
            modulus(),
            14954475219514960091269161237518034207584947452958956300721962104565458578924int,
        ),
{
    let a: int = 4067217240286848671452265983065331897323918408910809300406102239489012348584int;
    let n: int = modulus();
    lemma_chain_23_1();
    let e0: nat = 3186867526nat;
    let c0: int = 8125547412493835302655544292277789516896418318486148577548235680118494358722int;
    let c1: int = 15210807959392480672518527411770725120669757686839245514064083362806434615262int;
    let e1: nat = lemma_bit_step(a, n, e0, c0, 0, c1);
    let c2: int = 14825074532863450486668029090056492409643860963120200518293230527073365407714int;
    let e2: nat = lemma_bit_step(a, n, e1, c1, 1, c2);
    let c3: int = 11420482190816822151268568602146673094208033372034080010015365028613068075075int;
    let e3: nat = lemma_bit_step(a, n, e2, c2, 1, c3);
    let c4: int = 18496881770047501294629587441966510646180871093725103134111316461724589140683int;
    let e4: nat = lemma_bit_step(a, n, e3, c3, 1, c4);
    let c5: int = 2237019093751528618639042543825848412579754333004986349879865178964098782587int;
    let e5: nat = lemma_bit_step(a, n, e4, c4, 0, c5);
    let c6: int = 2839246551341045319822335734886485110012180583085267305826728535661394171274int;
    let e6: nat = lemma_bit_step(a, n, e5, c5, 0, c6);
    let c7: int = 1464631871477221700669242018938431796734818078948907931300166732432337750916int;
    let e7: nat = lemma_bit_step(a, n, e6, c6, 0, c7);
    let c8: int = 18920848220534954905595119256738582298605953670928872428456745297996714078343int;
    let e8: nat = lemma_bit_step(a, n, e7, c7, 1, c8);
    let c9: int = 21756547853927553624072612132636775815183179770725354197889403544432143667480int;
    let e9: nat = lemma_bit_step(a, n, e8, c8, 1, c9);
    let c10: int = 2436812365305135424519761496306639812067470956283251179144515159907233415200int;
    let e10: nat = lemma_bit_step(a, n, e9, c9, 1, c10);
    let c11: int = 17392445159704734836218738035517339578644351879633222452304609351608971145196int;
    let e11: nat = lemma_bit_step(a, n, e10, c10, 0, c11);
    let c12: int = 16809520541655059698717496467317138193309130170423808132850043317267846989585int;
    let e12: nat = lemma_bit_step(a, n, e11, c11, 1, c12);
    let c13: int = 18639383403526593858239452369786134210325304972954169196132663352242470919596int;
    let e13: nat = lemma_bit_step(a, n, e12, c12, 0, c13);
    let c14: int = 6607092569004807327634331535360706118346002349871874807749907684968254020795int;
    let e14: nat = lemma_bit_step(a, n, e13, c13, 1, c14);
    let c15: int = 4035495348016154172729634820634689062113386583787331187457720384514718685134int;
    let e15: nat = lemma_bit_step(a, n, e14, c14, 1, c15);
    let c16: int = 14954475219514960091269161237518034207584947452958956300721962104565458578924int;
    let e16: nat = lemma_bit_step(a, n, e15, c15, 0, c16);
}

/// The power 1670836401704629 of
/// 4067217240286848671452265983065331897323918408910809300406102239489012348584
/// modulo
/// 21888242871839275222246405745257275088548364400416034343698204186575808495617.
proof fn lemma_chain_23_3()
    ensures
        power_is(
            4067217240286848671452265983065331897323918408910809300406102239489012348584int,
            1670836401704629nat,
            modulus(),
            18810536960267738281623319138564098156538132287104634306360290224932305588168int,
        ),
{
    let a: int = 4067217240286848671452265983065331897323918408910809300406102239489012348584int;
    let n: int = modulus();
    lemma_chain_23_2();
    let e0: nat = 208854550213078nat;
    let c0: int = 14954475219514960091269161237518034207584947452958956300721962104565458578924int;
    let c1: int = 15165691769186097806534371376426457177378415567585007363103853162798591647034int;
    let e1: nat = lemma_bit_step(a, n, e0, c0, 1, c1);
    let c2: int = 8235707837921382704627731919954360325250346368193738132666408310195823247149int;
    let e2: nat = lemma_bit_step(a, n, e1, c1, 0, c2);
    let c3: int = 18810536960267738281623319138564098156538132287104634306360290224932305588168int;
    let e3: nat = lemma_bit_step(a, n, e2, c2, 1, c3);
}

/// Part 1 of the way to: the power 1670836401704629 of
/// 15379204794002667769298530452756604474647348591674452342013272253614090326003
/// modulo
/// 21888242871839275222246405745257275088548364400416034343698204186575808495617.
proof fn lemma_chain_24_0()
    ensures
        power_is(
            15379204794002667769298530452756604474647348591674452342013272253614090326003int,
            48627nat,
            modulus(),
            21064593875770928518069729970560030130232318591963303905799254791559363863296int,
        ),
{
    let a: int = 15379204794002667769298530452756604474647348591674452342013272253614090326003int;
    let n: int = modulus();
    lemma_chain_start(a, n);
    let e0: nat = 0nat;
    let c0: int = 1int;
    let c1: int = 15379204794002667769298530452756604474647348591674452342013272253614090326003int;
    let e1: nat = lemma_bit_step(a, n, e0, c0, 1, c1);
    let c2: int = 19360659035887236148133016038200428628513110106055523380242472506706136249408int;
    let e2: nat = lemma_bit_step(a, n, e1, c1, 0, c2);
    let c3: int = 4260654729730660216535389619375238216553402430020728752504375226320501554837int;
    let e3: nat = lemma_bit_step(a, n, e2, c2, 1, c3);
    let c4: int = 13750187841809496137775006957785154012924509222254573750553502331611566652728int;
    let e4: nat = lemma_bit_step(a, n, e3, c3, 1, c4);
    let c5: int = 8111122955935412117111579644565783043712978760286990757402222737224109010412int;
    let e5: nat = lemma_bit_step(a, n, e4, c4, 1, c5);
    let c6: int = 21472300116018326845335282028614456020875717339509094427352122036007077646396int;
    let e6: nat = lemma_bit_step(a, n, e5, c5, 1, c6);
    let c7: int = 3228530317528596532115753829283615338476883891407954109386818801729966713050int;
    let e7: nat = lemma_bit_step(a, n, e6, c6, 0, c7);
    let c8: int = 1614218765963207036470521936549012739477947807905165226916966686105113399296int;
    let e8: nat = lemma_bit_step(a, n, e7, c7, 1, c8);
    let c9: int = 15156778539796329802722585791294361698338516370070287909631127535147969819908int;
    let e9: nat = lemma_bit_step(a, n, e8, c8, 1, c9);
    let c10: int = 9604642766458281050354848302236279731014020914870701755944707977193316408641int;
    let e10: nat = lemma_bit_step(a, n, e9, c9, 1, c10);
    let c11: int = 15444520202297557232880096412305440400925607232651555968356803917557952013706int;
    let e11: nat = lemma_bit_step(a, n, e10, c10, 1, c11);
    let c12: int = 13881795938341018967138717919926544656600048896830667798904099002631114053469int;
    let e12: nat = lemma_bit_step(a, n, e11, c11, 1, c12);
    let c13: int = 4274482819020790875035035361287095172451999316111037336765933740034542785230int;
    let e13: nat = lemma_bit_step(a, n, e12, c12, 0, c13);
    let c14: int = 5239253682821261453313533686008503529920715924476802501680898192313931618776int;
    let e14: nat = lemma_bit_step(a, n, e13, c13, 0, c14);
    let c15: int = 12997965327827198381662574256267640193201185907944930759570858280593083517658int;
    let e15: nat = lemma_bit_step(a, n, e14, c14, 1, c15);
    let c16: int = 21064593875770928518069729970560030130232318591963303905799254791559363863296int;
    let e16: nat = lemma_bit_step(a, n, e15, c15, 1, c16);
}

/// Part 2 of the way to: the power 1670836401704629 of
/// 15379204794002667769298530452756604474647348591674452342013272253614090326003
/// modulo
/// 21888242871839275222246405745257275088548364400416034343698204186575808495617.
proof fn lemma_chain_24_1()
    ensures
        power_is(
            15379204794002667769298530452756604474647348591674452342013272253614090326003int,
            3186867526nat,
            modulus(),
            8718862624924841751011151243041743735171784265322752006999002190000087161548int,
        ),
{
    let a: int = 15379204794002667769298530452756604474647348591674452342013272253614090326003int;
    let n: int = modulus();
    lemma_chain_24_0();
    let e0: nat = 48627nat;
    let c0: int = 21064593875770928518069729970560030130232318591963303905799254791559363863296int;
    let c1: int = 10527709627322457405580604022728976958362813614670153644908256499092458118612int;
    let e1: nat = lemma_bit_step(a, n, e0, c0, 1, c1);
    let c2: int = 11404451597857003216866347181045884589807957502936515805532672520067819238060int;
    let e2: nat = lemma_bit_step(a, n, e1, c1, 0, c2);
    let c3: int = 3053501093978968543287168992464908609308717022560862197316863005964349942694int;
    let e3: nat = lemma_bit_step(a, n, e2, c2, 1, c3);
    let c4: int = 10215525461884523280708229076589469726564123048568713099541730516517684813636int;
    let e4: nat = lemma_bit_step(a, n, e3, c3, 1, c4);
    let c5: int = 14135494865484631370567301019739146590900285554420238215294990764042368130988int;
    let e5: nat = lemma_bit_step(a, n, e4, c4, 1, c5);
    let c6: int = 10487703603611266235193069438232953247840241834238775838731835623258830600821int;
    let e6: nat = lemma_bit_step(a, n, e5, c5, 1, c6);
    let c7: int = 14697913870320701908178088657548268116533272751121407663067227238882460087513int;
    let e7: nat = lemma_bit_step(a, n, e6, c6, 0, c7);
    let c8: int = 6948100676146386039149113223425662747897137949792417632167258843967192764098int;
    let e8: nat = lemma_bit_step(a, n, e7, c7, 1, c8);
    let c9: int = 3125730006319034453649830634266919891590496763931676957250894347734181937463int;
    let e9: nat = lemma_bit_step(a, n, e8, c8, 0, c9);
    let c10: int = 6388316224400855601384281159447153935304118304905223982875606562309607819862int;
    let e10: nat = lemma_bit_step(a, n, e9, c9, 1, c10);
    let c11: int = 2955512403943696847423123723236622717040173816240042112877337728667321167804int;
    let e11: nat = lemma_bit_step(a, n, e10, c10, 0, c11);
    let c12: int = 7967935913187470095536967780403543290109103153440294730489752757248660192770int;
    let e12: nat = lemma_bit_step(a, n, e11, c11, 0, c12);
    let c13: int = 12196221520890133461645702619129631970130838313699473339026252132692578792441int;
    let e13: nat = lemma_bit_step(a, n, e12, c12, 0, c13);
    let c14: int = 9930058692639698792104458941944738337269014746045694762676491911503547334578int;
    let e14: nat = lemma_bit_step(a, n, e13, c13, 1, c14);
    let c15: int = 2424727628898210220023312369396108577648812531441836735654182370684160382025int;
    let e15: nat = lemma_bit_step(a, n, e14, c14, 1, c15);
    let c16: int = 8718862624924841751011151243041743735171784265322752006999002190000087161548int;
    let e16: nat = lemma_bit_step(a, n, e15, c15, 0, c16);
}

/// Part 3 of the way to: the power 1670836401704629 of
/// 15379204794002667769298530452756604474647348591674452342013272253614090326003
/// modulo
/// 21888242871839275222246405745257275088548364400416034343698204186575808495617.
proof fn lemma_chain_24_2()
    ensures
        power_is(
            15379204794002667769298530452756604474647348591674452342013272253614090326003int,
            208854550213078nat,
            modulus(),
            8961255157403180602468744555589811942791582104418643046409585852780991602655int,
        ),
{
    let a: int = 15379204794002667769298530452756604474647348591674452342013272253614090326003int;
    let n: int = modulus();
    lemma_chain_24_1();
    let e0: nat = 3186867526nat;
    let c0: int = 8718862624924841751011151243041743735171784265322752006999002190000087161548int;
    let c1: int = 4965512243072694828365954530443331358504003032608872494962835660450349398558int;
    let e1: nat = lemma_bit_step(a, n, e0, c0, 0, c1);
    let c2: int = 412462898443065221604625693269937890929487784888994253613148463090268661182int;
    let e2: nat = lemma_bit_step(a, n, e1, c1, 1, c2);
    let c3: int = 1283961948877319834595797847421587932900082439994332288281233496288834814677int;
    let e3: nat = lemma_bit_step(a, n, e2, c2, 1, c3);
    let c4: int = 13719906702901597756437938005109189994004770796409351440798058688623634816152int;
    let e4: nat = lemma_bit_step(a, n, e3, c3, 1, c4);
    let c5: int = 4905882647038381981447128759243168275532287172917613505487400556701244449600int;
    let e5: nat = lemma_bit_step(a, n, e4, c4, 0, c5);
    let c6: int = 2061253006374471442225825952950981896845046752213511838679543049328940285int;
    let e6: nat = lemma_bit_step(a, n, e5, c5, 0, c6);
    let c7: int = 13238021060017281061049341521316163530322714476552492959801227200555855190750int;
    let e7: nat = lemma_bit_step(a, n, e6, c6, 0, c7);
    let c8: int = 7085062979747496777101588552843721304041561828287163753410974161109510541366int;
    let e8: nat = lemma_bit_step(a, n, e7, c7, 1, c8);
    let c9: int = 16584775796084674375929929084844307336564903933054929741905867898669397005861int;
    let e9: nat = lemma_bit_step(a, n, e8, c8, 1, c9);
    let c10: int = 18145668383780846474944130862023383347068386591956559321781922065715157803291int;
    let e10: nat = lemma_bit_step(a, n, e9, c9, 1, c10);
    let c11: int = 9131265340931556458562057635742570076237163207900597002893029626728645091008int;
    let e11: nat = lemma_bit_step(a, n, e10, c10, 0, c11);
    let c12: int = 16306261791877365048750374745454429390598553919374379949511598173302159653727int;
    let e12: nat = lemma_bit_step(a, n, e11, c11, 1, c12);
    let c13: int = 20363683192876218771463646159058720771298837090394022683587821155698775362351int;
    let e13: nat = lemma_bit_step(a, n, e12, c12, 0, c13);
    let c14: int = 12197654279910196199066449517068888282611058134752828332958638334186260084943int;
    let e14: nat = lemma_bit_step(a, n, e13, c13, 1, c14);
    let c15: int = 536273062225463174020747041170579101968810656245233552079387940789386982850int;
    let e15: nat = lemma_bit_step(a, n, e14, c14, 1, c15);
    let c16: int = 8961255157403180602468744555589811942791582104418643046409585852780991602655int;
    let e16: nat = lemma_bit_step(a, n, e15, c15, 0, c16);
}

/// The power 1670836401704629 of
/// 15379204794002667769298530452756604474647348591674452342013272253614090326003
/// modulo
/// 21888242871839275222246405745257275088548364400416034343698204186575808495617.
proof fn lemma_chain_24_3()
    ensures
        power_is(
            15379204794002667769298530452756604474647348591674452342013272253614090326003int,
            1670836401704629nat,
            modulus(),
            1int,
        ),
{
    let a: int = 15379204794002667769298530452756604474647348591674452342013272253614090326003int;
    let n: int = modulus();
    lemma_chain_24_2();
    let e0: nat = 208854550213078nat;
    let c0: int = 8961255157403180602468744555589811942791582104418643046409585852780991602655int;
    let c1: int = 17762540238320408498092545748224242674064399574780357781353611157874558983846int;
    let e1: nat = lemma_bit_step(a, n, e0, c0, 1, c1);
    let c2: int = 19384841766302110249878603245450463629997196100431823615736497314657958578220int;
    let e2: nat = lemma_bit_step(a, n, e1, c1, 0, c2);
    let c3: int = 1int;
    let e3: nat = lemma_bit_step(a, n, e2, c2, 1, c3);
}

/// The order of the field is a prime number, by Pocklington's criterion
/// with the witness 2 and the prime divisors
/// 13818364434197438864469338081 and 1670836401704629
/// of its predecessor.
pub proof fn lemma_modulus_is_prime()
    ensures
        is_prime(modulus()),
{
    lemma_prime_13818364434197438864469338081();
    lemma_prime_1670836401704629();
    lemma_chain_21_6();
    lemma_chain_22_5();
    lemma_power_of_power(
        2int,
        modulus(),
        948026174865265269726259848413184nat,
        4067217240286848671452265983065331897323918408910809300406102239489012348584int,
        13818364434197438864469338081nat,
        15379204794002667769298530452756604474647348591674452342013272253614090326003int,
    );
    lemma_chain_23_3();
    lemma_power_of_power(
        2int,
        modulus(),
        948026174865265269726259848413184nat,
        4067217240286848671452265983065331897323918408910809300406102239489012348584int,
        1670836401704629nat,
        18810536960267738281623319138564098156538132287104634306360290224932305588168int,
    );
    lemma_chain_24_3();
    lemma_power_of_power(
        2int,
        modulus(),
        13100171177446423556613374118717413492986637444144570673659904nat,
        15379204794002667769298530452756604474647348591674452342013272253614090326003int,
        1670836401704629nat,
        1int,
    );
    lemma_witness(
        modulus(),
        13818364434197438864469338081int,
        1583996642733683218748855262055434666238317428736nat,
        2int,
        18810536960267738281623319138564098156538132287104634306360290224932305588168int,
        (-3057471175105288394903284636998901371831729837386813463435814102394990864228int),
        2627560141808608095846297891779126776159394593540311027799435321263172680381int,
    );
    lemma_witness(
        modulus(),
        1670836401704629int,
        13100171177446423556613374118717413492986637444144570673659904nat,
        2int,
        15379204794002667769298530452756604474647348591674452342013272253614090326003int,
        86052601511993865195709936845511121156384965108811623497653747272590813794int,
        (-60462623220081706990128436344546960468165908192540319468010835125287669411int),
    );
    lemma_combine(
        modulus(),
        13818364434197438864469338081int,
        1670836401704629int,
        321019827441698int,
        (-2654939144051968453515257853int),
    );
    lemma_pocklington(modulus(), 23088226308677670388631582763742451703676949int);
}

} // verus!

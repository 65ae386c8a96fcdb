//! The modulus of the field is prime.
//!
//! Each number is shown to be prime by a base whose order modulo it is a known
//! prime, or a product of two, above its square root. The powers of a base are
//! worked out one hexadecimal digit of the exponent at a time. Small primes are
//! shown by trial division.

use crate::commitment::field;
use crate::commitment::prime;
use vstd::arithmetic::div_mod::*;
use vstd::arithmetic::power::*;
use vstd::prelude::*;

verus! {

/// A number with a residue that has an inverse once one is taken off.
proof fn lemma_inverse(x: int, r: int, c: int, n: int)
    requires
        n >= 2,
        x % n == r,
        (c * (r - 1)) % n == 1,
    ensures
        (c * (x - 1)) % n == 1,
{
    lemma_sub_mod_noop(x, 1, n);
    lemma_sub_mod_noop(r, 1, n);
    lemma_mod_twice(x, n);
    assert((x - 1) % n == (r - 1) % n);
    lemma_mul_mod_noop_right(c, x - 1, n);
    lemma_mul_mod_noop_right(c, r - 1, n);
}

/// The number is prime.
proof fn lemma_prime_11()
    ensures
        prime::is_prime(11),
{
    prime::lemma_no_divisor_of_four(11, 2, 3, 4, 5);
    prime::lemma_prime_by_trial(11, 5);
}

/// The number is prime.
proof fn lemma_prime_977()
    ensures
        prime::is_prime(977),
{
    prime::lemma_no_divisor_of_four(977, 2, 3, 4, 5);
    prime::lemma_no_divisor_of_four(977, 6, 7, 8, 9);
    prime::lemma_no_divisor_of_four(977, 10, 11, 12, 13);
    prime::lemma_no_divisor_of_four(977, 14, 15, 16, 17);
    prime::lemma_no_divisor_of_four(977, 18, 19, 20, 21);
    prime::lemma_no_divisor_of_four(977, 22, 23, 24, 25);
    prime::lemma_no_divisor_of_four(977, 26, 27, 28, 29);
    prime::lemma_no_divisor_of_four(977, 30, 31, 32, 33);
    prime::lemma_prime_by_trial(977, 33);
}

/// The number is prime.
proof fn lemma_prime_509()
    ensures
        prime::is_prime(509),
{
    prime::lemma_no_divisor_of_four(509, 2, 3, 4, 5);
    prime::lemma_no_divisor_of_four(509, 6, 7, 8, 9);
    prime::lemma_no_divisor_of_four(509, 10, 11, 12, 13);
    prime::lemma_no_divisor_of_four(509, 14, 15, 16, 17);
    prime::lemma_no_divisor_of_four(509, 18, 19, 20, 21);
    prime::lemma_no_divisor_of_four(509, 22, 23, 24, 25);
    prime::lemma_prime_by_trial(509, 25);
}

/// The number is prime.
proof fn lemma_prime_25741()
    ensures
        prime::is_prime(25741),
{
    prime::lemma_no_divisor_of_four(25741, 2, 3, 4, 5);
    prime::lemma_no_divisor_of_four(25741, 6, 7, 8, 9);
    prime::lemma_no_divisor_of_four(25741, 10, 11, 12, 13);
    prime::lemma_no_divisor_of_four(25741, 14, 15, 16, 17);
    prime::lemma_no_divisor_of_four(25741, 18, 19, 20, 21);
    prime::lemma_no_divisor_of_four(25741, 22, 23, 24, 25);
    prime::lemma_no_divisor_of_four(25741, 26, 27, 28, 29);
    prime::lemma_no_divisor_of_four(25741, 30, 31, 32, 33);
    prime::lemma_no_divisor_of_four(25741, 34, 35, 36, 37);
    prime::lemma_no_divisor_of_four(25741, 38, 39, 40, 41);
    prime::lemma_no_divisor_of_four(25741, 42, 43, 44, 45);
    prime::lemma_no_divisor_of_four(25741, 46, 47, 48, 49);
    prime::lemma_no_divisor_of_four(25741, 50, 51, 52, 53);
    prime::lemma_no_divisor_of_four(25741, 54, 55, 56, 57);
    prime::lemma_no_divisor_of_four(25741, 58, 59, 60, 61);
    prime::lemma_no_divisor_of_four(25741, 62, 63, 64, 65);
    prime::lemma_no_divisor_of_four(25741, 66, 67, 68, 69);
    prime::lemma_no_divisor_of_four(25741, 70, 71, 72, 73);
    prime::lemma_no_divisor_of_four(25741, 74, 75, 76, 77);
    prime::lemma_no_divisor_of_four(25741, 78, 79, 80, 81);
    prime::lemma_no_divisor_of_four(25741, 82, 83, 84, 85);
    prime::lemma_no_divisor_of_four(25741, 86, 87, 88, 89);
    prime::lemma_no_divisor_of_four(25741, 90, 91, 92, 93);
    prime::lemma_no_divisor_of_four(25741, 94, 95, 96, 97);
    prime::lemma_no_divisor_of_four(25741, 98, 99, 100, 101);
    prime::lemma_no_divisor_of_four(25741, 102, 103, 104, 105);
    prime::lemma_no_divisor_of_four(25741, 106, 107, 108, 109);
    prime::lemma_no_divisor_of_four(25741, 110, 111, 112, 113);
    prime::lemma_no_divisor_of_four(25741, 114, 115, 116, 117);
    prime::lemma_no_divisor_of_four(25741, 118, 119, 120, 121);
    prime::lemma_no_divisor_of_four(25741, 122, 123, 124, 125);
    prime::lemma_no_divisor_of_four(25741, 126, 127, 128, 129);
    prime::lemma_no_divisor_of_four(25741, 130, 131, 132, 133);
    prime::lemma_no_divisor_of_four(25741, 134, 135, 136, 137);
    prime::lemma_no_divisor_of_four(25741, 138, 139, 140, 141);
    prime::lemma_no_divisor_of_four(25741, 142, 143, 144, 145);
    prime::lemma_no_divisor_of_four(25741, 146, 147, 148, 149);
    prime::lemma_no_divisor_of_four(25741, 150, 151, 152, 153);
    prime::lemma_no_divisor_of_four(25741, 154, 155, 156, 157);
    prime::lemma_no_divisor_of_four(25741, 158, 159, 160, 161);
    prime::lemma_prime_by_trial(25741, 161);
}

/// A hexadecimal digit is put behind the exponent of a power modulo this number.
proof fn step_6942563(e: int, x: int, d: int, s: int, t: int, u: int, y: int)
    requires
        e >= 0,
        0 <= d < 16,
        pow(1510002, e as nat) % 6942563 == x,
        s == prime::squared(1510002, x, d >= 8) % 6942563,
        t == prime::squared(1510002, s, d % 8 >= 4) % 6942563,
        u == prime::squared(1510002, t, d % 4 >= 2) % 6942563,
        y == prime::squared(1510002, u, d % 2 == 1) % 6942563,
    ensures
        pow(1510002, (16 * e + d) as nat) % 6942563 == y,
{
    prime::lemma_digit(1510002, 6942563, e, x, d, s, t, u, y);
}

/// A power of the base.
proof fn lemma_order_6942563()
    ensures
        pow(1510002, 10747) % 6942563 == 1,
{
    lemma_pow0(1510002);
    step_6942563(0, 1, 2, 1, 1, 1510002, 1729292);
    step_6942563(2, 1729292, 9, 1712150, 2051128, 2320014, 1137029);
    step_6942563(41, 1137029, 15, 3762142, 1391173, 4694179, 1137099);
    step_6942563(671, 1137099, 11, 2216200, 5417961, 3744409, 1);
}

/// A power of the base.
proof fn lemma_first_6942563()
    ensures
        pow(1510002, 977) % 6942563 == 1142703,
{
    lemma_pow0(1510002);
    step_6942563(0, 1, 3, 1, 1, 1510002, 4525587);
    step_6942563(3, 4525587, 13, 5512627, 5794717, 4718702, 6133237);
    step_6942563(61, 6133237, 1, 5525478, 492038, 336508, 1142703);
}

/// A power of the base.
proof fn lemma_second_6942563()
    ensures
        pow(1510002, 11) % 6942563 == 5061822,
{
    lemma_pow0(1510002);
    step_6942563(0, 1, 11, 1510002, 1729292, 1712150, 5061822);
}

/// The number is prime.
proof fn lemma_prime_6942563()
    ensures
        prime::is_prime(6942563),
{
    lemma_order_6942563();
    lemma_first_6942563();
    lemma_second_6942563();
    lemma_inverse(pow(1510002, 11), 5061822, 1778843, 6942563);
    lemma_inverse(pow(1510002, 977), 1142703, 1136927, 6942563);
    lemma_prime_977();
    lemma_prime_11();
    prime::lemma_prime_by_order(6942563, 1510002, 10747, 977, 11, 1778843, 1136927);
}

/// A hexadecimal digit is put behind the exponent of a power modulo this number.
proof fn step_41655379(e: int, x: int, d: int, s: int, t: int, u: int, y: int)
    requires
        e >= 0,
        0 <= d < 16,
        pow(64, e as nat) % 41655379 == x,
        s == prime::squared(64, x, d >= 8) % 41655379,
        t == prime::squared(64, s, d % 8 >= 4) % 41655379,
        u == prime::squared(64, t, d % 4 >= 2) % 41655379,
        y == prime::squared(64, u, d % 2 == 1) % 41655379,
    ensures
        pow(64, (16 * e + d) as nat) % 41655379 == y,
{
    prime::lemma_digit(64, 41655379, e, x, d, s, t, u, y);
}

/// A power of the base.
proof fn lemma_order_41655379()
    ensures
        pow(64, 6942563) % 41655379 == 1,
{
    lemma_pow0(64);
    step_41655379(0, 1, 6, 1, 64, 262144, 29756765);
    step_41655379(6, 29756765, 9, 24790606, 14886132, 15344731, 28398749);
    step_41655379(105, 28398749, 14, 1502901, 35759984, 38476453, 17223455);
    step_41655379(1694, 17223455, 15, 27069080, 13989901, 24404144, 2004257);
    step_41655379(27119, 2004257, 6, 9648184, 3750359, 4612174, 38267725);
    step_41655379(433910, 38267725, 3, 17743079, 35645512, 15620767, 1);
}

/// The number is prime.
proof fn lemma_prime_41655379()
    ensures
        prime::is_prime(41655379),
{
    lemma_order_41655379();
    lemma_pow1(64);
    lemma_prime_6942563();
    prime::lemma_prime_by_order(41655379, 64, 6942563, 6942563, 1, 1322393, 0);
}

/// A hexadecimal digit is put behind the exponent of a power modulo this number.
proof fn step_22160661629(e: int, x: int, d: int, s: int, t: int, u: int, y: int)
    requires
        e >= 0,
        0 <= d < 16,
        pow(0x402309d30int, e as nat) % 0x528e0dc7dint == x,
        s == prime::squared(0x402309d30int, x, d >= 8) % 0x528e0dc7dint,
        t == prime::squared(0x402309d30int, s, d % 8 >= 4) % 0x528e0dc7dint,
        u == prime::squared(0x402309d30int, t, d % 4 >= 2) % 0x528e0dc7dint,
        y == prime::squared(0x402309d30int, u, d % 2 == 1) % 0x528e0dc7dint,
    ensures
        pow(0x402309d30int, (16 * e + d) as nat) % 0x528e0dc7dint == y,
{
    prime::lemma_digit(0x402309d30int, 0x528e0dc7dint, e, x, d, s, t, u, y);
}

/// A power of the base.
proof fn lemma_order_22160661629_1()
    ensures
        pow(0x402309d30int, 2603461) % 0x528e0dc7dint == 0x4d547e338int,
{
    lemma_pow0(0x402309d30int);
    step_22160661629(0, 1, 2, 1, 1, 0x402309d30int, 0x1207af508int);
    step_22160661629(
        2,
        0x1207af508int,
        7,
        0x3ba7b3871int,
        0x14299a7a5int,
        0x2b5c3d193int,
        0xd50dd446int,
    );
    step_22160661629(
        39,
        0xd50dd446int,
        11,
        0x344dfba3bint,
        0x16e5e7652int,
        0x5008f6e61int,
        0x1e4d0fde9int,
    );
    step_22160661629(
        635,
        0x1e4d0fde9int,
        9,
        0x1f28c6ce9int,
        0x2b52e3793int,
        0xe459748dint,
        0x3913278f4int,
    );
    step_22160661629(
        10169,
        0x3913278f4int,
        12,
        0x30899009cint,
        0x1dd9e2141int,
        0x39f4f0984int,
        0x4de34a0b3int,
    );
    step_22160661629(
        162716,
        0x4de34a0b3int,
        5,
        904203573,
        0x1301ea00aint,
        0x2a877e5f7int,
        0x4d547e338int,
    );
}

/// A power of the base.
proof fn lemma_order_22160661629()
    ensures
        pow(0x402309d30int, 41655379) % 0x528e0dc7dint == 1,
{
    lemma_order_22160661629_1();
    step_22160661629(2603461, 0x4d547e338int, 3, 0x20ce8fb4dint, 0x5083ae44cint, 0x3a922ed9bint, 1);
}

/// The number is prime.
proof fn lemma_prime_22160661629()
    ensures
        prime::is_prime(0x528e0dc7dint),
{
    lemma_order_22160661629();
    lemma_pow1(0x402309d30int);
    lemma_prime_41655379();
    prime::lemma_prime_by_order(
        0x528e0dc7dint,
        0x402309d30int,
        41655379,
        41655379,
        1,
        0x3e52cd804int,
        0,
    );
}

/// A hexadecimal digit is put behind the exponent of a power modulo this number.
proof fn step_772231(e: int, x: int, d: int, s: int, t: int, u: int, y: int)
    requires
        e >= 0,
        0 <= d < 16,
        pow(340734, e as nat) % 772231 == x,
        s == prime::squared(340734, x, d >= 8) % 772231,
        t == prime::squared(340734, s, d % 8 >= 4) % 772231,
        u == prime::squared(340734, t, d % 4 >= 2) % 772231,
        y == prime::squared(340734, u, d % 2 == 1) % 772231,
    ensures
        pow(340734, (16 * e + d) as nat) % 772231 == y,
{
    prime::lemma_digit(340734, 772231, e, x, d, s, t, u, y);
}

/// A power of the base.
proof fn lemma_order_772231()
    ensures
        pow(340734, 25741) % 772231 == 1,
{
    lemma_pow0(340734);
    step_772231(0, 1, 6, 1, 340734, 608748, 548610);
    step_772231(6, 548610, 4, 533236, 330491, 720672, 311379);
    step_772231(100, 311379, 8, 480010, 581092, 640942, 605601);
    step_772231(1608, 605601, 13, 49801, 197578, 16803, 1);
}

/// The number is prime.
proof fn lemma_prime_772231()
    ensures
        prime::is_prime(772231),
{
    lemma_order_772231();
    lemma_pow1(340734);
    lemma_prime_25741();
    prime::lemma_prime_by_order(772231, 340734, 25741, 25741, 1, 734600, 0);
}

/// A hexadecimal digit is put behind the exponent of a power modulo this number.
proof fn step_325086459374267(e: int, x: int, d: int, s: int, t: int, u: int, y: int)
    requires
        e >= 0,
        0 <= d < 16,
        pow(0xb02901cf875int, e as nat) % 0x127aa16eeaabbint == x,
        s == prime::squared(0xb02901cf875int, x, d >= 8) % 0x127aa16eeaabbint,
        t == prime::squared(0xb02901cf875int, s, d % 8 >= 4) % 0x127aa16eeaabbint,
        u == prime::squared(0xb02901cf875int, t, d % 4 >= 2) % 0x127aa16eeaabbint,
        y == prime::squared(0xb02901cf875int, u, d % 2 == 1) % 0x127aa16eeaabbint,
    ensures
        pow(0xb02901cf875int, (16 * e + d) as nat) % 0x127aa16eeaabbint == y,
{
    prime::lemma_digit(0xb02901cf875int, 0x127aa16eeaabbint, e, x, d, s, t, u, y);
}

/// A power of the base.
proof fn lemma_order_325086459374267_1()
    ensures
        pow(0xb02901cf875int, 1535412) % 0x127aa16eeaabbint == 0x27192c188e7bint,
{
    lemma_pow0(0xb02901cf875int);
    step_325086459374267(0, 1, 1, 1, 1, 1, 0xb02901cf875int);
    step_325086459374267(
        1,
        0xb02901cf875int,
        7,
        0xf2fb607bfc8cint,
        0x7c0e25af8b84int,
        0x3d8a40ef5bb0int,
        0x10ae56a52eb0dint,
    );
    step_325086459374267(
        23,
        0x10ae56a52eb0dint,
        6,
        0x683fd10fd74fint,
        0xeec4732d1407int,
        0xe6c7131efe2eint,
        0xea97a54bfafcint,
    );
    step_325086459374267(
        374,
        0xea97a54bfafcint,
        13,
        0x956fd37482bfint,
        0xb5366e2a949int,
        0xe6cd5088a729int,
        0x26cdab7f88f5int,
    );
    step_325086459374267(
        5997,
        0x26cdab7f88f5int,
        11,
        0xf222449b15dint,
        0x50e0854de4beint,
        0x75f79e89ef0aint,
        0xe8cbfe593d37int,
    );
    step_325086459374267(
        95963,
        0xe8cbfe593d37int,
        4,
        0x992fdeaefacfint,
        0x722620399a36int,
        0x4f1de7bf7ea8int,
        0x27192c188e7bint,
    );
}

/// A power of the base.
proof fn lemma_order_325086459374267()
    ensures
        pow(0xb02901cf875int, 393065579) % 0x127aa16eeaabbint == 1,
{
    lemma_order_325086459374267_1();
    step_325086459374267(
        1535412,
        0x27192c188e7bint,
        6,
        0x532a1ca8c282int,
        0xcd5ddf5a85c9int,
        0x224327c6219dint,
        0x9bc3560f4534int,
    );
    step_325086459374267(
        24566598,
        0x9bc3560f4534int,
        11,
        0x35f91fc4a4eaint,
        0x6e69529a833aint,
        0x690d45c00398int,
        1,
    );
}

/// A power of the base.
proof fn lemma_first_325086459374267()
    ensures
        pow(0xb02901cf875int, 772231) % 0x127aa16eeaabbint == 0x75c1192b07c9int,
{
    lemma_pow0(0xb02901cf875int);
    step_325086459374267(
        0,
        1,
        11,
        0xb02901cf875int,
        0xf2fb607bfc8cint,
        0x7c0e25af8b84int,
        0x3d8a40ef5bb0int,
    );
    step_325086459374267(
        11,
        0x3d8a40ef5bb0int,
        12,
        0x10ae56a52eb0dint,
        0x48c411c38475int,
        0x2f83202d2c2int,
        0xb088cf68d608int,
    );
    step_325086459374267(
        188,
        0xb088cf68d608int,
        8,
        0x54f8f07c0151int,
        0x277bb1011d40int,
        0x8a36baf6d971int,
        0xba8e1575fb79int,
    );
    step_325086459374267(
        3016,
        0xba8e1575fb79int,
        8,
        0x81c858495104int,
        0xabe6f1fb57a3int,
        0xbe582d97841dint,
        0x526d12b76b46int,
    );
    step_325086459374267(
        48264,
        0x526d12b76b46int,
        7,
        0x1555cff27a7dint,
        0xcd03f423e694int,
        0xcb55ffe11905int,
        0x75c1192b07c9int,
    );
}

/// A power of the base.
proof fn lemma_second_325086459374267()
    ensures
        pow(0xb02901cf875int, 509) % 0x127aa16eeaabbint == 0x8e0b83230477int,
{
    lemma_pow0(0xb02901cf875int);
    step_325086459374267(0, 1, 1, 1, 1, 1, 0xb02901cf875int);
    step_325086459374267(
        1,
        0xb02901cf875int,
        15,
        0x63360e80fe99int,
        0xc249d1281017int,
        0xe57679c1f67dint,
        0x817d477eab1bint,
    );
    step_325086459374267(
        31,
        0x817d477eab1bint,
        13,
        0x1062ea2e79feint,
        0xd44bd338d33bint,
        0xc72826e9728dint,
        0x8e0b83230477int,
    );
}

/// The number is prime.
proof fn lemma_prime_325086459374267()
    ensures
        prime::is_prime(0x127aa16eeaabbint),
{
    lemma_order_325086459374267();
    lemma_first_325086459374267();
    lemma_second_325086459374267();
    lemma_inverse(
        pow(0xb02901cf875int, 509),
        0x8e0b83230477int,
        0xbe1a5e86ce16int,
        0x127aa16eeaabbint,
    );
    lemma_inverse(
        pow(0xb02901cf875int, 772231),
        0x75c1192b07c9int,
        0x690cc1734b03int,
        0x127aa16eeaabbint,
    );
    lemma_prime_772231();
    lemma_prime_509();
    prime::lemma_prime_by_order(
        0x127aa16eeaabbint,
        0xb02901cf875int,
        393065579,
        772231,
        509,
        0xbe1a5e86ce16int,
        0x690cc1734b03int,
    );
}

/// A hexadecimal digit is put behind the exponent of a power modulo this number.
proof fn step_cofactor(e: int, x: int, d: int, s: int, t: int, u: int, y: int)
    requires
        e >= 0,
        0 <= d < 16,
        pow(0x3306493093511ba521b11cb7c5bbbc000e7bint, e as nat) % 0x674e41aa25559f3f6806ca7324f298d5465dint == x,
        s == prime::squared(0x3306493093511ba521b11cb7c5bbbc000e7bint, x, d >= 8) % 0x674e41aa25559f3f6806ca7324f298d5465dint,
        t == prime::squared(0x3306493093511ba521b11cb7c5bbbc000e7bint, s, d % 8 >= 4) % 0x674e41aa25559f3f6806ca7324f298d5465dint,
        u == prime::squared(0x3306493093511ba521b11cb7c5bbbc000e7bint, t, d % 4 >= 2) % 0x674e41aa25559f3f6806ca7324f298d5465dint,
        y == prime::squared(0x3306493093511ba521b11cb7c5bbbc000e7bint, u, d % 2 == 1) % 0x674e41aa25559f3f6806ca7324f298d5465dint,
    ensures
        pow(0x3306493093511ba521b11cb7c5bbbc000e7bint, (16 * e + d) as nat) % 0x674e41aa25559f3f6806ca7324f298d5465dint == y,
{
    prime::lemma_digit(
        0x3306493093511ba521b11cb7c5bbbc000e7bint,
        0x674e41aa25559f3f6806ca7324f298d5465dint,
        e,
        x,
        d,
        s,
        t,
        u,
        y,
    );
}

/// A power of the base.
proof fn lemma_order_cofactor_1()
    ensures
        pow(0x3306493093511ba521b11cb7c5bbbc000e7bint, 6248587) % 0x674e41aa25559f3f6806ca7324f298d5465dint == 0x45140fb28023cfd9501f755cb91e6e63f433int,
{
    lemma_pow0(0x3306493093511ba521b11cb7c5bbbc000e7bint);
    step_cofactor(
        0,
        1,
        5,
        1,
        0x3306493093511ba521b11cb7c5bbbc000e7bint,
        0x370a41f357e9ee677ebf0572519314858c62int,
        0x5648e486e671647f90245932df0bfa07c002int,
    );
    step_cofactor(
        5,
        0x5648e486e671647f90245932df0bfa07c002int,
        15,
        0x38236d7f500d7d788372d0ecfb3a6e2d69adint,
        0x560626c6059b7262cdf782d80ef3411f697aint,
        0x62a69837e706cda6f412b21f589cc5393120int,
        0x4419b098c33c8af7db07cc7bfe93ba7ce93aint,
    );
    step_cofactor(
        95,
        0x4419b098c33c8af7db07cc7bfe93ba7ce93aint,
        5,
        0x1fc6f0b89279a4fdd2b3526c906556503b45int,
        0x71e687ab05439b95d9eacb62d796a9dea6fint,
        0x46db3d9657cd73c4f3de4ba4da9f101f4f24int,
        0x3a71d2e893b95700aba59dc4339e06658457int,
    );
    step_cofactor(
        1525,
        0x3a71d2e893b95700aba59dc4339e06658457int,
        8,
        0x7d28716f7b28d940b9d0be5742c17874485int,
        0x38692321d98a3a7124121be4fcd34ed23655int,
        0x55efd1b7bde12e5799997bd4aa860312ab1fint,
        0x448f9c8ee90bee5c48070d591a45e746ebb4int,
    );
    step_cofactor(
        24408,
        0x448f9c8ee90bee5c48070d591a45e746ebb4int,
        8,
        0x4fc3fc1788a2fac779864976abd8641a5b76int,
        0x65a459e932fa0739a37860ecb4f2026e89beint,
        0x37a7d50cfd1d6662d4d429b1353f71aaf0eeint,
        0x645a0237125d18004b3b542a3b5b726470a8int,
    );
    step_cofactor(
        390536,
        0x645a0237125d18004b3b542a3b5b726470a8int,
        11,
        0x38feea0b79070942b205f19020adf9e4c2e1int,
        0xbd907c4232c470532a6360b1446a6e49255int,
        0x5ede0610eb53c9113e9ec894093a992290dfint,
        0x45140fb28023cfd9501f755cb91e6e63f433int,
    );
}

/// A power of the base.
proof fn lemma_order_cofactor_2()
    ensures
        pow(0x3306493093511ba521b11cb7c5bbbc000e7bint, 0x5f588b9b93aenat) % 0x674e41aa25559f3f6806ca7324f298d5465dint == 0x1fa6591ade820966631829cc8eb650ebfa9int,
{
    lemma_order_cofactor_1();
    step_cofactor(
        6248587,
        0x45140fb28023cfd9501f755cb91e6e63f433int,
        9,
        0x12d22cadf3777d073a37d1797a64dd45ccc4int,
        0x540339155265e72851907b8454bb4da4e9d2int,
        0x37445a12177635278a6e071927c169651ef3int,
        0x4b95592815ddf6386e9aef57a8fc2a3431b3int,
    );
    step_cofactor(
        99977401,
        0x4b95592815ddf6386e9aef57a8fc2a3431b3int,
        11,
        0x13db50c5fb323cbd83db4338bbbd6b17e553int,
        0x3ee50318f43391f3550553badf287dd76c0aint,
        0x327d86dc67b1653db2aa126d236740cfceaaint,
        0x2a0e952a5bc3f73f30d302d6b0c7c81872c6int,
    );
    step_cofactor(
        1599638427,
        0x2a0e952a5bc3f73f30d302d6b0c7c81872c6int,
        9,
        0x51d09fc5adeba3e88a0d058638deae79c7c6int,
        0x5731eb6e49296d606486344a625157bb6ed0int,
        0x38938c1a9df018113ccdf40ba0b973f76364int,
        0x242f6b75fb6d5843e9c9ceb1e5e2af74e5b9int,
    );
    step_cofactor(
        0x5f588b9b9int,
        0x242f6b75fb6d5843e9c9ceb1e5e2af74e5b9int,
        3,
        0x581af643387ea0e021a03e86ae419e953c47int,
        0x42f5a564fc37b4ea4f72677e282e4e567f27int,
        0x512aff4baec438caad4ef549c2ccaa6e897bint,
        0x16635f16a5e0f3b587d1f3b4f647359a7966int,
    );
    step_cofactor(
        0x5f588b9b93int,
        0x16635f16a5e0f3b587d1f3b4f647359a7966int,
        10,
        0x164e24e15420e2eb3fb406a820d8d9f29c4aint,
        0x3a802e046618a0b0f1d160516bbd1e1e9583int,
        0x15f0da493f986e4439e4817bb8f0fdc315b7int,
        0x53c7a627bd20cceae093babfcb87bdb18119int,
    );
    step_cofactor(
        0x5f588b9b93aint,
        0x53c7a627bd20cceae093babfcb87bdb18119int,
        14,
        0x35aec38a7e203b2b84e1b132b5788c7d20c1int,
        0x59110245ad3c84b344eecf53d3e9ca181315int,
        0x1638b7db3c90060645a007cca2a60e63db2eint,
        0x1fa6591ade820966631829cc8eb650ebfa9int,
    );
}

/// A power of the base.
proof fn lemma_order_cofactor_3()
    ensures
        pow(0x3306493093511ba521b11cb7c5bbbc000e7bint, 0x5f588b9b93aebe8e21nat) % 0x674e41aa25559f3f6806ca7324f298d5465dint == 0x5d5b0d05586f9b8360afe4a3f22c1282a1e4int,
{
    lemma_order_cofactor_2();
    step_cofactor(
        0x5f588b9b93aeint,
        0x1fa6591ade820966631829cc8eb650ebfa9int,
        11,
        0x131a05307cee5fe80f824fdd1866db3aefe0int,
        0x486545e9a9a9fe4bbc273d32ea98fff8abf4int,
        0x3a4b27cbf6daf3f73a88adfa37a6d86b842cint,
        0x266a8420655d19a28eea50fff0698d2d0183int,
    );
    step_cofactor(
        0x5f588b9b93aebint,
        0x266a8420655d19a28eea50fff0698d2d0183int,
        14,
        0x27ceb321637fd1e0abfea8564d6152e7d948int,
        0x24bb1bb340b8670740cfc999be532fd46db1int,
        0x170fe079ba24e6a55d4efd38503032cca131int,
        0x37021a41927fa1aed4979ea70cc85075b2b6int,
    );
    step_cofactor(
        0x5f588b9b93aebeint,
        0x37021a41927fa1aed4979ea70cc85075b2b6int,
        8,
        0x53ee7a48e3b2a8c4ab31c8048cd4c6914de7int,
        0x6529d5bf095b223568ee45ee21614339554fint,
        0x5dbc7d999c9e5e6ccdffbf0182b90599bc94int,
        0x51578290fb52f05dd86d9fcb71dabb678ec9int,
    );
    step_cofactor(
        0x5f588b9b93aebe8int,
        0x51578290fb52f05dd86d9fcb71dabb678ec9int,
        14,
        0x633b05bda8387325ae636446455d2fba905bint,
        0x27ce9abbb0770768542e3fb94d57a29fc097int,
        0x5bb38b18dd2513e772d0e54880d8e6a5e16eint,
        0x440b08b300ac94e7dc7675b5b14fc688ce75int,
    );
    step_cofactor(
        0x5f588b9b93aebe8eint,
        0x440b08b300ac94e7dc7675b5b14fc688ce75int,
        2,
        0x1574299ea9da1dbfe3a22d80a4edd48ae417int,
        0x40f334fc313ab9d65ef892fa8393ccee9318int,
        0x29ebc5fa9e5418717c83b787451b84d95a4bint,
        0x4de575b28b70ec698ca48f83490b4e2e07d1int,
    );
    step_cofactor(
        0x5f588b9b93aebe8e2int,
        0x4de575b28b70ec698ca48f83490b4e2e07d1int,
        1,
        0x22e62184e83bd6a1616e792b85ee09d12d94int,
        0x419ae2c7b4d152e536d34acc17004cc91efeint,
        0x2e90d4d2ef4dbe7645af9b48f48291852d1cint,
        0x5d5b0d05586f9b8360afe4a3f22c1282a1e4int,
    );
}

/// A power of the base.
proof fn lemma_order_cofactor()
    ensures
        pow(0x3306493093511ba521b11cb7c5bbbc000e7bint, 0x5f588b9b93aebe8e2114fnat) % 0x674e41aa25559f3f6806ca7324f298d5465dint == 1,
{
    lemma_order_cofactor_3();
    step_cofactor(
        0x5f588b9b93aebe8e21int,
        0x5d5b0d05586f9b8360afe4a3f22c1282a1e4int,
        1,
        0x1bde1f25c155d7f184f689231e3e920b0d1eint,
        0x403cda560ddbc512214fdc0229e339012928int,
        0x3fc8768d0295a9dae153c0e5304060c0b4d5int,
        0x5cc65fd6f1fc040bcc33d86ac4caa96d5d35int,
    );
    step_cofactor(
        0x5f588b9b93aebe8e211int,
        0x5cc65fd6f1fc040bcc33d86ac4caa96d5d35int,
        4,
        0xa9e6c25d56d453f287ce307c841276cd34eint,
        0x1ffa0ea90f27e715467fb1d64452cecdb8b0int,
        0x1041f27ac4b5e3ef9b8f57afdfa432b96b33int,
        0x652c862526b8a2caa3905be661d1519238b1int,
    );
    step_cofactor(
        0x5f588b9b93aebe8e2114int,
        0x652c862526b8a2caa3905be661d1519238b1int,
        15,
        0x15d7ea4c45b5ab6df9d53606f44658313050int,
        0x55ea3037b073c830ba749aa2194573af50feint,
        0xa26a00e32408e52f2495120b760fe5c99dcint,
        1,
    );
}

/// A power of the base.
proof fn lemma_first_cofactor_1()
    ensures
        pow(0x3306493093511ba521b11cb7c5bbbc000e7bint, 1211041) % 0x674e41aa25559f3f6806ca7324f298d5465dint == 0x23991f50f8734a4656f0165f8570bc674d86int,
{
    lemma_pow0(0x3306493093511ba521b11cb7c5bbbc000e7bint);
    step_cofactor(0, 1, 1, 1, 1, 1, 0x3306493093511ba521b11cb7c5bbbc000e7bint);
    step_cofactor(
        1,
        0x3306493093511ba521b11cb7c5bbbc000e7bint,
        2,
        0x370a41f357e9ee677ebf0572519314858c62int,
        0x37ffee3605a62221b5569f472a45a2e8012fint,
        0x5eb84ae60acb1a1f1c6dca735b75b60ae8fbint,
        0xc1ae6532396c61a0b05a8f911dd0ba80f3int,
    );
    step_cofactor(
        18,
        0xc1ae6532396c61a0b05a8f911dd0ba80f3int,
        7,
        0x5502fe86227983ff8f2f0eed00c5d62976e5int,
        0x2fa8440f359a5de6d1b0de8b63cb2bb67964int,
        0x4766370ed92c10d8f6794228ed8a907abddcint,
        0x19304cedd09838906baadb6dfae39db756b0int,
    );
    step_cofactor(
        295,
        0x19304cedd09838906baadb6dfae39db756b0int,
        10,
        0x59924a78b41fff94df1e2baaa69cf53a3a28int,
        0x29b9793a98c57d0ee7c14f23a7585dca36e3int,
        0x4a9e6482750f22b49dd91bfd66ceb08951e8int,
        0xaef88f686bb283ef06542c3fda10bd2a36aint,
    );
    step_cofactor(
        4730,
        0xaef88f686bb283ef06542c3fda10bd2a36aint,
        10,
        0x53453891fb5ee7fbac2c3a726f4adc16edaeint,
        0x1288828fc6f845d31bee575b4e729e8155e6int,
        0x12fba7a98bfcc50891dd2a54a64a9808d1d7int,
        0x2621e52b84f7d3d473ba9897213f8682eb90int,
    );
    step_cofactor(
        75690,
        0x2621e52b84f7d3d473ba9897213f8682eb90int,
        1,
        0x5a083e77186ce0e166ed1168ed1cd8653e3fint,
        0x2cd93284699855ca6f74b06a499231d11071int,
        0x1e621bfcd04fba0002b7d04afa797b27ca2eint,
        0x23991f50f8734a4656f0165f8570bc674d86int,
    );
}

/// A power of the base.
proof fn lemma_first_cofactor_2()
    ensures
        pow(0x3306493093511ba521b11cb7c5bbbc000e7bint, 0x127aa16eeaabnat) % 0x674e41aa25559f3f6806ca7324f298d5465dint == 0x126fce2cf993f7ba9a52f724667288ca0e1dint,
{
    lemma_first_cofactor_1();
    step_cofactor(
        1211041,
        0x23991f50f8734a4656f0165f8570bc674d86int,
        6,
        0xd47124b7aef29809d2982c33bc66b536721int,
        0x287defe1251008f4826ab6e5f2b9163dfecdint,
        0x2cfa3286fdaac2fe2080e2f591c3a2bd46c8int,
        0x5fce372e77272288bddabf37745491ec9392int,
    );
    step_cofactor(
        19376662,
        0x5fce372e77272288bddabf37745491ec9392int,
        14,
        0x23e73e2a798b76c96a75211e2b161b52cd99int,
        0xad7c6b96fa4223da34e4dd9de91710234b3int,
        0x1b0e0d00afc5bf28e209c2690b81bac8be1int,
        0x62bd39f369d9a9a3cab45f3ff9a4fc78407int,
    );
    step_cofactor(
        310026606,
        0x62bd39f369d9a9a3cab45f3ff9a4fc78407int,
        14,
        0x5a64f6914f6c2596581d16251b4ba9325003int,
        0x37e07117f9f25fe98b3362128135c73da50dint,
        0xfc43fd137efd96db983708dedcf0fe43f4bint,
        0x5adcdc7f9c68358bf8290a2e3f63d2773f18int,
    );
    step_cofactor(
        0x127aa16eeint,
        0x5adcdc7f9c68358bf8290a2e3f63d2773f18int,
        10,
        0x26f753ea8c458d4aaafc5e507a8e48e0af76int,
        0xa1a38427dc38ff6beaed47c9173799fde9fint,
        0x34c33393ddd533ee72ef3dd86313304820baint,
        0x272495cd77a8398c337777d48fc0b7bbd0d2int,
    );
    step_cofactor(
        0x127aa16eeaint,
        0x272495cd77a8398c337777d48fc0b7bbd0d2int,
        10,
        0x44a5c18720124a6455eed131578522f0b6efint,
        0x1397258b8ac3d56a6d0c997236841609b1d9int,
        0x7d468c359c02778ee702f442319147796e6int,
        0x4d97acded4b9ffa18650dfdffea2c0cbcc2cint,
    );
    step_cofactor(
        0x127aa16eeaaint,
        0x4d97acded4b9ffa18650dfdffea2c0cbcc2cint,
        11,
        0x5718fc42523de494b15fecbfdf2abf80cba6int,
        0x24f71ba6ac85fce295e2126ff9d1840b04beint,
        0x56a1fba34a218b4677e72d750ac4aec7b234int,
        0x126fce2cf993f7ba9a52f724667288ca0e1dint,
    );
}

/// A power of the base.
proof fn lemma_first_cofactor()
    ensures
        pow(0x3306493093511ba521b11cb7c5bbbc000e7bint, 0x127aa16eeaabbnat) % 0x674e41aa25559f3f6806ca7324f298d5465dint == 0x55bb924d6d8f9f031b347bf64472e58fbe3eint,
{
    lemma_first_cofactor_2();
    step_cofactor(
        0x127aa16eeaabint,
        0x126fce2cf993f7ba9a52f724667288ca0e1dint,
        11,
        0x17bc93bb6593fafd01c39319329246d06782int,
        0x268d4a1c5601586b2d14a18ebb7ae81fca67int,
        0x38de3b6cf6542cd341717f7a28855a1fd609int,
        0x55bb924d6d8f9f031b347bf64472e58fbe3eint,
    );
}

/// A power of the base.
proof fn lemma_second_cofactor_1()
    ensures
        pow(0x3306493093511ba521b11cb7c5bbbc000e7bint, 5410317) % 0x674e41aa25559f3f6806ca7324f298d5465dint == 0x2c162e0351630d05ac95c250d781a831a862int,
{
    lemma_pow0(0x3306493093511ba521b11cb7c5bbbc000e7bint);
    step_cofactor(
        0,
        1,
        5,
        1,
        0x3306493093511ba521b11cb7c5bbbc000e7bint,
        0x370a41f357e9ee677ebf0572519314858c62int,
        0x5648e486e671647f90245932df0bfa07c002int,
    );
    step_cofactor(
        5,
        0x5648e486e671647f90245932df0bfa07c002int,
        2,
        0x1f5534d8e33fbf4ce410d48c8c454e0d68deint,
        0x2f3ba39db81b9d0cfbe8d3c6c14890ba9301int,
        0x3011bb5e225d1048d3f1218f5c9daf7b276bint,
        0x54cb309f8770151a429be245710dfbc69b04int,
    );
    step_cofactor(
        82,
        0x54cb309f8770151a429be245710dfbc69b04int,
        8,
        0x3170a4d43e7b1a988da97a609fb4051dd9d3int,
        0x4144a2c7fd1f27982d8ce527b693b90be363int,
        0x34d4a8ee9b3f616b1e5a55ab4a19e879388bint,
        0xb030cd2766dd89bc6d5bbbcdb28713e507dint,
    );
    step_cofactor(
        1320,
        0xb030cd2766dd89bc6d5bbbcdb28713e507dint,
        14,
        0x38ed68fc1c8b1fec7e73e515def43dbcda41int,
        0x33770b5913a32d4ef64f1649a5325574d3fcint,
        0x34f457d701a5b0b496922cdce55dc28a21cbint,
        0xc3096f43de0a4d5095ec5fd3e864f4fe789int,
    );
    step_cofactor(
        21134,
        0xc3096f43de0a4d5095ec5fd3e864f4fe789int,
        0,
        0x4fd59923b5f53c355daf5492030f2c3e8631int,
        0x2141d2f1b3bf1655fcd5a19b5f854c25bff2int,
        0x5694e9078cb294b9cae838377a9b483eb61fint,
        0x3c191d6de2fe2b3114ecdc8855fb9f67704dint,
    );
    step_cofactor(
        338144,
        0x3c191d6de2fe2b3114ecdc8855fb9f67704dint,
        13,
        0x5b3509677322d7ade831fdddddd1259b5e3fint,
        0x5236313a68c88d9c567e21fbfc6592e3f0acint,
        0x3e80b4c431dbdeb3a5f838be3baa6d7d0b85int,
        0x2c162e0351630d05ac95c250d781a831a862int,
    );
}

/// A power of the base.
proof fn lemma_second_cofactor()
    ensures
        pow(0x3306493093511ba521b11cb7c5bbbc000e7bint, 0x528e0dc7dnat) % 0x674e41aa25559f3f6806ca7324f298d5465dint == 0x1615a4fc9dd1d5260b3068d98852c86a2c65int,
{
    lemma_second_cofactor_1();
    step_cofactor(
        5410317,
        0x2c162e0351630d05ac95c250d781a831a862int,
        12,
        0x523ea7aca27e87b8094aed42104aeaa7114fint,
        0x1624d33e10e8b108964c6d42bf42c683b543int,
        0x215c9550287664ed70ed8deec6fa5836e04aint,
        0x8776d6739f00365a95f8f04afac73c62c63int,
    );
    step_cofactor(
        86565084,
        0x8776d6739f00365a95f8f04afac73c62c63int,
        7,
        0x43f2cf6895dd42b01eecb55018ef0bc74d5int,
        0x17b4680065f6c4a93309703b90b9d5cb60ffint,
        0x62090103d3bd7f43b57b366ab5f057bf921bint,
        0x4322f0492e96ddfce65ff603ccb0a663c89dint,
    );
    step_cofactor(
        1385041351,
        0x4322f0492e96ddfce65ff603ccb0a663c89dint,
        13,
        0x19acb3026dd112f8ce04fde5a2f8d9563228int,
        0x4452324ae78be2fad82bebc5f42665f05a09int,
        0x31c2aaa6fc6b198c0ceb4894f4c55de88ec9int,
        0x1615a4fc9dd1d5260b3068d98852c86a2c65int,
    );
}

/// The largest prime factor of the modulus less one is prime.
proof fn lemma_prime_cofactor()
    ensures
        prime::is_prime(0x674e41aa25559f3f6806ca7324f298d5465dint),
{
    lemma_order_cofactor();
    lemma_first_cofactor();
    lemma_second_cofactor();
    lemma_inverse(
        pow(0x3306493093511ba521b11cb7c5bbbc000e7bint, 0x528e0dc7dnat),
        0x1615a4fc9dd1d5260b3068d98852c86a2c65int,
        0x356b71f8635bd248c70d2e065392ab87c1fcint,
        0x674e41aa25559f3f6806ca7324f298d5465dint,
    );
    lemma_inverse(
        pow(0x3306493093511ba521b11cb7c5bbbc000e7bint, 0x127aa16eeaabbnat),
        0x55bb924d6d8f9f031b347bf64472e58fbe3eint,
        0x4f3b026dd0bce12fbee81d1727fe3a8bc799int,
        0x674e41aa25559f3f6806ca7324f298d5465dint,
    );
    lemma_prime_325086459374267();
    lemma_prime_22160661629();
    prime::lemma_prime_by_order(
        0x674e41aa25559f3f6806ca7324f298d5465dint,
        0x3306493093511ba521b11cb7c5bbbc000e7bint,
        0x5f588b9b93aebe8e2114fint,
        0x127aa16eeaabbint,
        0x528e0dc7dint,
        0x356b71f8635bd248c70d2e065392ab87c1fcint,
        0x4f3b026dd0bce12fbee81d1727fe3a8bc799int,
    );
}

/// A hexadecimal digit is put behind the exponent of a power modulo this number.
proof fn step_modulus(e: int, x: int, d: int, s: int, t: int, u: int, y: int)
    requires
        e >= 0,
        0 <= d < 16,
        pow(0x348cdb83aa5c808a180e82875bf3b391ef293ff1cd5f81d0c402c0be7bf67293int, e as nat) % 0x40000000000000000000000000000000224698fc094cf91b992d30ed00000001int == x,
        s == prime::squared(0x348cdb83aa5c808a180e82875bf3b391ef293ff1cd5f81d0c402c0be7bf67293int, x, d >= 8) % 0x40000000000000000000000000000000224698fc094cf91b992d30ed00000001int,
        t == prime::squared(0x348cdb83aa5c808a180e82875bf3b391ef293ff1cd5f81d0c402c0be7bf67293int, s, d % 8 >= 4) % 0x40000000000000000000000000000000224698fc094cf91b992d30ed00000001int,
        u == prime::squared(0x348cdb83aa5c808a180e82875bf3b391ef293ff1cd5f81d0c402c0be7bf67293int, t, d % 4 >= 2) % 0x40000000000000000000000000000000224698fc094cf91b992d30ed00000001int,
        y == prime::squared(0x348cdb83aa5c808a180e82875bf3b391ef293ff1cd5f81d0c402c0be7bf67293int, u, d % 2 == 1) % 0x40000000000000000000000000000000224698fc094cf91b992d30ed00000001int,
    ensures
        pow(0x348cdb83aa5c808a180e82875bf3b391ef293ff1cd5f81d0c402c0be7bf67293int, (16 * e + d) as nat) % 0x40000000000000000000000000000000224698fc094cf91b992d30ed00000001int == y,
{
    prime::lemma_digit(
        0x348cdb83aa5c808a180e82875bf3b391ef293ff1cd5f81d0c402c0be7bf67293int,
        0x40000000000000000000000000000000224698fc094cf91b992d30ed00000001int,
        e,
        x,
        d,
        s,
        t,
        u,
        y,
    );
}

/// A power of the base.
proof fn lemma_order_modulus_1()
    ensures
        pow(0x348cdb83aa5c808a180e82875bf3b391ef293ff1cd5f81d0c402c0be7bf67293int, 6770241) % 0x40000000000000000000000000000000224698fc094cf91b992d30ed00000001int == 0x374a8434b15c8c8cd4979526b20941972a118374d9d0a55bf3c679b995607726int,
{
    lemma_pow0(0x348cdb83aa5c808a180e82875bf3b391ef293ff1cd5f81d0c402c0be7bf67293int);
    step_modulus(
        0,
        1,
        6,
        1,
        0x348cdb83aa5c808a180e82875bf3b391ef293ff1cd5f81d0c402c0be7bf67293int,
        0x16e9a3be489db9174e4bb2e9aae2b1723ddd37027de4e1674bea799ab7eac9cdint,
        0x14c2b70c08b4ada28d5d0525a1a80ac1457dcf9542801c6a1f8985444cfcb5deint,
    );
    step_modulus(
        6,
        0x14c2b70c08b4ada28d5d0525a1a80ac1457dcf9542801c6a1f8985444cfcb5deint,
        7,
        0xe0a4b5f89d92a409ee1e1d38481b50ad527282f548afa03f41f1940364bf643int,
        0x33fbc6531005eb999e087cb9d91e2ad381e3388f11839e9ec0c22c7b6ff63779int,
        0x35593b6258509574ded3d0b66fb575a0ce79a15a5ef914b69c78633271398381int,
        0x2b59b2be1223b40da6e7df8cc148e9fe5bfda3d6246be629bded55a5c325478aint,
    );
    step_modulus(
        103,
        0x2b59b2be1223b40da6e7df8cc148e9fe5bfda3d6246be629bded55a5c325478aint,
        4,
        0x1f44e99d1105835327e375cf06cd3e2a2ec395d4b74ebf825a7ae44a24256044int,
        0x1b2f025dee0ec32c97a6322575cd912b23255d98ce70ec2cee49aad7d0497fffint,
        0x1d141c6179fc17f0e53d82a55bcb96ff3aafb9688f6b6bf4c33ac3f40dd105a4int,
        0x12e748518fffad6d9e868c40a41753625346b33e9ae0d0bafe7478a9d3ba8272int,
    );
    step_modulus(
        1652,
        0x12e748518fffad6d9e868c40a41753625346b33e9ae0d0bafe7478a9d3ba8272int,
        14,
        0xdd66e9bd8016f4677d3503cbfbb44ffc988dcc09c045930a72a02e04c4b4eacint,
        0x2d453589b111569f90c6c7c53fb7a0dbaa5003f7848b96a9cd16bab3b287cbe9int,
        0x78e513e8201d26af3d9e975d9c28ff68c90f49c6dd9a6d257e442079319306bint,
        0x379468ca6bb77c41155cf375f7e4e1fbc1179081840c043e10c469af29549464int,
    );
    step_modulus(
        26446,
        0x379468ca6bb77c41155cf375f7e4e1fbc1179081840c043e10c469af29549464int,
        4,
        0x20ba9293632cdc004060207e54c7aab451cd7cefaa48dab7ded23c2e48b7cbf4int,
        0x162263ea8710f679f4208c450e5195dcb06894ccd0a35bfdc49e5adf16d26fd9int,
        0x1863216dcfd9d8dd1c4fa8c8fdd8561a53561fd9252ebf3aa8650e86a3109f63int,
        0x382d90cb6377d6f2d00ee7fc798a71dced4f99f29207018a74fbe968b26f8bdeint,
    );
    step_modulus(
        423140,
        0x382d90cb6377d6f2d00ee7fc798a71dced4f99f29207018a74fbe968b26f8bdeint,
        1,
        0x37004a7491f9f1afcf9a883ed0661ceca4836ea710ff7eeea07d20fd955b4020int,
        0x3222c4376857c80fad4bee2f5a4aa54864eba9aa62e4fbe1031490e33c3b03d7int,
        0x15cb3780f3c218bc7e9f95a1a18f1a98c24f02f221278bbddcbfa1480105e0a7int,
        0x374a8434b15c8c8cd4979526b20941972a118374d9d0a55bf3c679b995607726int,
    );
}

/// A power of the base.
proof fn lemma_order_modulus_2()
    ensures
        pow(0x348cdb83aa5c808a180e82875bf3b391ef293ff1cd5f81d0c402c0be7bf67293int, 0x674e41aa2555nat) % 0x40000000000000000000000000000000224698fc094cf91b992d30ed00000001int == 0xfe64ad765e4d2d9e4333909397a5cbe2f4292e117d008cf879a861afc5104abint,
{
    lemma_order_modulus_1();
    step_modulus(
        6770241,
        0x374a8434b15c8c8cd4979526b20941972a118374d9d0a55bf3c679b995607726int,
        10,
        0x3f25bc04b0fc5c406ee4a9919bc37ba30b5d5d54d7ee5df90cbbd760620e3901int,
        0x38a2b7afb4fda6c5a69e8f8d6a19856e7106c42f5c30d1491330a731608c2cbaint,
        0x3b8d4962b122222adf178f7f1d197dce882e3f382b90611e0be773280ac8adbeint,
        0x2319093e4ece846cde37d0ea4fee6393b303b00dbda1289450daba0f5a3a80f7int,
    );
    step_modulus(
        108323866,
        0x2319093e4ece846cde37d0ea4fee6393b303b00dbda1289450daba0f5a3a80f7int,
        10,
        0x1ec7e6dd8488aae863ee41fa8e84ee5e629f930b0a030929ed904025767d8b5int,
        0x18a8e2fc2ab823f4a17576d91d10a8ef1e0c1611b5049c709f31ceb1bbdf334eint,
        0xc5efe495deff34f023c29d74803610a8ddcd89e57ca2321fa0a2d8a0105aa21int,
        0x45a47b775b7f5454d18f3fec8aa4ed2901daf423cc7d5d8f2861b5233fa41b6int,
    );
    step_modulus(
        1733181866,
        0x45a47b775b7f5454d18f3fec8aa4ed2901daf423cc7d5d8f2861b5233fa41b6int,
        2,
        0x12152477a549247506470d90daa66568917c2d582f4a6dea2a317215d2694bc0int,
        0x655204b1ac4988034e26ac23568f9e00b7d539ff3deda156bf38d63c226ed74int,
        0x1c7cc09a88db517a03a4f996f7dd35abfa0ac57064d6ea45d44cfc4c6b80b507int,
        0x600b224473fac2fe6237e518e932e6b54d0c186410124771cab00965af9538aint,
    );
    step_modulus(
        0x674e41aa2int,
        0x600b224473fac2fe6237e518e932e6b54d0c186410124771cab00965af9538aint,
        5,
        0x6ace125e059e8ba04a52799fdbd87c5ab7dba2892fb42ab091030941b3ffe0fint,
        0x23e618756c98d31a109719ff8eddfdfc5e4d5dff557aa384861247fc1294f52aint,
        0x3e809fe8f2aaa37da7b067c1439787975d37c4345f6ae90c0bc99cf9e7ecd8d8int,
        0x795bb24a687da38dc689f45ab48bb39774952c505dd59b8d9e58cf392a12aeaint,
    );
    step_modulus(
        0x674e41aa25int,
        0x795bb24a687da38dc689f45ab48bb39774952c505dd59b8d9e58cf392a12aeaint,
        5,
        0x2516b60ff8be72cd57b782f8246b10c2f5480859065ab0aae3e4cc906974e146int,
        0x21522fd02051b26a57e79eec8178439ec43c4a7d051db76087ae7d6c51b3d3ceint,
        0x23920e3d3f4c467808fb4bf1459d70690afe0f8080429a8e28449305376a2b49int,
        0x2fa4a8a9eadbf767ef2d0f2cb67338e431b79903caeb6e39a67c2ce829f0b787int,
    );
    step_modulus(
        0x674e41aa255int,
        0x2fa4a8a9eadbf767ef2d0f2cb67338e431b79903caeb6e39a67c2ce829f0b787int,
        5,
        0x15fae05aab476a54ace3401a93ab1fae69ffcf491d0f83dbcecfd6024f88c72bint,
        0x2d7748d0c05c59504c24159960430a4b559afa79a8b439c05288f41105b44ce4int,
        0x1c9ea773ea5be86674ce8790bcf55a52411630c388d2b224081847d034a0a283int,
        0xfe64ad765e4d2d9e4333909397a5cbe2f4292e117d008cf879a861afc5104abint,
    );
}

/// A power of the base.
proof fn lemma_order_modulus_3()
    ensures
        pow(0x348cdb83aa5c808a180e82875bf3b391ef293ff1cd5f81d0c402c0be7bf67293int, 0x674e41aa25559f3f68nat) % 0x40000000000000000000000000000000224698fc094cf91b992d30ed00000001int == 0x2ce8b04d5a852f901a55bebd1758c26dacd03f87d5d36471d5d8fd94e8c1fb25int,
{
    lemma_order_modulus_2();
    step_modulus(
        0x674e41aa2555int,
        0xfe64ad765e4d2d9e4333909397a5cbe2f4292e117d008cf879a861afc5104abint,
        9,
        0x39f229f450d1a9730265dcdeebcad205eec0130fd0da90fb9595ccf345a51e02int,
        0xc760a015fe08c6da0c73bb9e676b1a79f6e2c3169744b3f800541e6e466d83eint,
        0x2f736cbec149e764b5b9f9993e3c44d97c4508a0a2e3dc2af7d476b0d77ae69bint,
        0x3b3904008ec6f268360c1284bcbf0c0d7605f1441e54f9e4b5c05b99963340c4int,
    );
    step_modulus(
        0x674e41aa25559int,
        0x3b3904008ec6f268360c1284bcbf0c0d7605f1441e54f9e4b5c05b99963340c4int,
        15,
        0x3e3c3032b745fee47823967859f1870d4a73c88d245b266aa98419397707d4fint,
        0x17ce6f78a7893b436a7077425cfbf0fa4e1b88708f82d799ed611f77e17c095fint,
        0x35c508eccd02f6bbc4190e912084b5106a764603cdbc28da84229b57da67993bint,
        0xbc10cb6b60a804b436f026a540cd7a5a9d5155a358ca6a8f67d68694d75d8d8int,
    );
    step_modulus(
        0x674e41aa25559fint,
        0xbc10cb6b60a804b436f026a540cd7a5a9d5155a358ca6a8f67d68694d75d8d8int,
        3,
        0xa13403a074aa0c6a2ac623f0b5c7d8973f8bfd836fb964d38f1d9e89944cd06int,
        0x200769fb000eb5918056e7cc6b18860ac7af3af98907269ee31ffb31634ba9e2int,
        0x2a1b222244e7be42c5ed021df39d8db8067026e0208873cd4664f1861daa15e4int,
        0x5a6a31ab7c652d16a0a624c38319f09e5ada872ebb349c448158605155b5860int,
    );
    step_modulus(
        0x674e41aa25559f3int,
        0x5a6a31ab7c652d16a0a624c38319f09e5ada872ebb349c448158605155b5860int,
        15,
        0x1b3d03236e151e533178338f53d7fb7eb5c726feee3f13486f95a4582fc6d91eint,
        0x867d7c185560bdbfe8cea7bc7b8225b84a0bd23a04e8b2805929e0b7d33fd4int,
        0x3633421c7cddf111fda75a601b7f00d5a5acf5a34998f01b8693217a10158b9eint,
        0x5f43423a09e530eb24da200beaed574566154563054dbed68f9b809223ab91eint,
    );
    step_modulus(
        0x674e41aa25559f3fint,
        0x5f43423a09e530eb24da200beaed574566154563054dbed68f9b809223ab91eint,
        6,
        0x15d9f20d7e948d1983dd1f69e899387dbc2d02ea596b6529f5d467308a8ab3b1int,
        0x3a55e702209d11fc17211b0fbeffa6e93227f19070dd9a2c015eb90c4b78174fint,
        0x1575e97adcbab499314896255986769e13ca0f8b9bec9ee1da31aabdc7f61365int,
        0xc1c904c80e01f06afccaed98be20cb1b44a03943f890a75ae5ccdd91563f307int,
    );
    step_modulus(
        0x674e41aa25559f3f6int,
        0xc1c904c80e01f06afccaed98be20cb1b44a03943f890a75ae5ccdd91563f307int,
        8,
        0x2e4e0a312e453b18154d5817e5ab08cc42c6f560d5514c2a65631d2f2533edd0int,
        0x302566873158424a0946bc917ad43f8cf38b9dba9c864c9639d069e978c4d5bbint,
        0x12bf66211b3b0e9c0e87afcfead2fa281677923adb6abea9ed20ea669fe287b1int,
        0x2ce8b04d5a852f901a55bebd1758c26dacd03f87d5d36471d5d8fd94e8c1fb25int,
    );
}

/// A power of the base.
proof fn lemma_order_modulus_4()
    ensures
        pow(0x348cdb83aa5c808a180e82875bf3b391ef293ff1cd5f81d0c402c0be7bf67293int, 0x674e41aa25559f3f6806ca73nat) % 0x40000000000000000000000000000000224698fc094cf91b992d30ed00000001int == 0x3d02fa90669de6f26fa28a2b9f43fccf9c2e4dab68ec6685e910985d3f3b6af0int,
{
    lemma_order_modulus_3();
    step_modulus(
        0x674e41aa25559f3f68int,
        0x2ce8b04d5a852f901a55bebd1758c26dacd03f87d5d36471d5d8fd94e8c1fb25int,
        0,
        0x240d49de31cef24ab4713ba3152abd6f6cc04b7cda12d9019b44c93ae251e3d4int,
        0x1301f2f372038de2e396b9c200cb73a328a78510cf50ba30aec702660834d5eint,
        0x27538d9274b09225f050f423924e6685c26977f5107a6e0cf71a43c2ab5f2e9eint,
        0x347c7c9d90ad532375757aed4e6f288552cd4842441ca06f3a9af0d720400c32int,
    );
    step_modulus(
        0x674e41aa25559f3f680int,
        0x347c7c9d90ad532375757aed4e6f288552cd4842441ca06f3a9af0d720400c32int,
        6,
        0x33bce72362010f597ada5d2ca84cfb9c1e5b7d329b8769997ad96c679829bba6int,
        0x30c75029d8e9d984d9576da4fff6954f73901b09bf271e42138477e39b40ba9cint,
        0xf3a5e9e9fb2384a26417ab7084982c5069f1cb02c616b14295cfb187ff4a1d6int,
        0x571a73a262d310593acdfe8eb9d0a7e062a8fdc65717b94a9f9a0d208dc9a7cint,
    );
    step_modulus(
        0x674e41aa25559f3f6806int,
        0x571a73a262d310593acdfe8eb9d0a7e062a8fdc65717b94a9f9a0d208dc9a7cint,
        12,
        0x17f76dd4e6675156fffee68f4dacd36445abec2758dcbd48c4e94a738a8c75c7int,
        0x157c96eb5f9709ca2230fb381b34b1e68ae977e88e53507ef54168ae7343715dint,
        0x3fdbf3d56ec3592d165c6e2a966d59b562db601f26a6c77874842aa4449f1e0eint,
        0x1121714c90b92742235ef1f8d6addfb331c5bf113097aba7c67c69d086b19a3bint,
    );
    step_modulus(
        0x674e41aa25559f3f6806cint,
        0x1121714c90b92742235ef1f8d6addfb331c5bf113097aba7c67c69d086b19a3bint,
        10,
        0x130eb511ab26280624ca702bf8b202f2c3d66d23c6b9deb470dbadffbc0ccdf6int,
        0x13fb560775c0a045e39dc568246caa430417a7d14d7a7a791b46a1bcd52986a7int,
        0x27374d6e8487b8926276dc153d76011b4eb6071ee63d0f1f77be1acca3cfca9bint,
        0xbd3c2e364487d848af454f34a12f41da331e029c202cd1c41b8b01dd6314980int,
    );
    step_modulus(
        0x674e41aa25559f3f6806caint,
        0xbd3c2e364487d848af454f34a12f41da331e029c202cd1c41b8b01dd6314980int,
        7,
        0x3d9b98b8c4596db72f07baadec77bbb83e7b059dec5442daa157b22ac79abef0int,
        0x25d9df2f063fdfad84421afa586870596f9f46ff3fe0cb8522976f6c4837c4daint,
        0x66cc6cb75690eb953b5db40aa176ab412da6dacfd9c38855f2fe45e0e7faf92int,
        0x63e9fae4d93e8b90b804d4b37150bc072c9c0f20a2463c451a9a1b6067d786int,
    );
    step_modulus(
        0x674e41aa25559f3f6806ca7int,
        0x63e9fae4d93e8b90b804d4b37150bc072c9c0f20a2463c451a9a1b6067d786int,
        3,
        0x27c8c40cf325984d4b51cc8d819ca593b090c9daf2ea5184bc76f4cd65deb344int,
        0x14d328f0bb413c281495cf06a1e9cd8519078306e60415f6097472ea1821dffint,
        0x23a1cf39c3ea988f50aa127595e7ca0880b6b15b6a39e8c5ecce189070909e8bint,
        0x3d02fa90669de6f26fa28a2b9f43fccf9c2e4dab68ec6685e910985d3f3b6af0int,
    );
}

/// A power of the base.
proof fn lemma_order_modulus_5()
    ensures
        pow(0x348cdb83aa5c808a180e82875bf3b391ef293ff1cd5f81d0c402c0be7bf67293int, 0x674e41aa25559f3f6806ca7324f298nat) % 0x40000000000000000000000000000000224698fc094cf91b992d30ed00000001int == 0x177022eaf54c8ac8f7f399c321ec4ca1834918c07313251cdfd75742612584f4int,
{
    lemma_order_modulus_4();
    step_modulus(
        0x674e41aa25559f3f6806ca73int,
        0x3d02fa90669de6f26fa28a2b9f43fccf9c2e4dab68ec6685e910985d3f3b6af0int,
        2,
        0x25f0275f42e52ad27698863291e24af2806ae5d60e1c49d850e2c374b05500dint,
        0x1d9c0e6c990bec0699b16c7c5ac5fc5eaf5c58cbcdfe8ee18412952fd6ff025int,
        0xf7b428232555a4b622239a0c9ecd00e66afdfb55c562a4f21543f82ed4cc2b9int,
        0x210ec4c63bf9868bc44c745bfc9ef0cec512d4ba3c42268f1d23185bac5d124int,
    );
    step_modulus(
        0x674e41aa25559f3f6806ca732int,
        0x210ec4c63bf9868bc44c745bfc9ef0cec512d4ba3c42268f1d23185bac5d124int,
        4,
        0x1641c52211870cc773ad5e2472a5120204b5c3b416be6377c585b677f015b93fint,
        0x2206768dc4e6226dc95027d4d4345436888830a809d692e2a492b5063fe9d093int,
        0x3a2d2b8c00f21b481111c73814791793f5cc9574e7433c9af468b7e504aca89aint,
        0xfff5f0c7c9848aad9e0b036a9e352245f9de361237b420874b951c4877a96ebint,
    );
    step_modulus(
        0x674e41aa25559f3f6806ca7324int,
        0xfff5f0c7c9848aad9e0b036a9e352245f9de361237b420874b951c4877a96ebint,
        15,
        0x327d8ef4065f5b5dab6f3a36949f9c7b38da63eb3bede574ba64b26642a0d69int,
        0x1a7932fecc518de9f31b1a60ab58063b68e464afc603121d35d48c215a4da983int,
        0x18b5184796a3cdf3b621bd47221bfaba332b58d16f464319e85ad90957169ca8int,
        0xc4de67ab299785f070280267161967745811d3660a8f01b50c344be63f71b3fint,
    );
    step_modulus(
        0x674e41aa25559f3f6806ca7324fint,
        0xc4de67ab299785f070280267161967745811d3660a8f01b50c344be63f71b3fint,
        2,
        0xad6f7b484feebe2d93524b62be35b36687f6a70c4142418309ad17e9982556aint,
        0x13520f1d6e26e0e86f9d013dc7661791f26bcbb29600e2395422bc9e6d7466f2int,
        0x355c1e340aa80747320de717267c6a38c8d5bbed2fef3ada31152d89520eb921int,
        0x28906637471e92f4cb6bc58e17fa4e94fb9fa249d27c97e43b15eb183fdf0f5aint,
    );
    step_modulus(
        0x674e41aa25559f3f6806ca7324f2int,
        0x28906637471e92f4cb6bc58e17fa4e94fb9fa249d27c97e43b15eb183fdf0f5aint,
        9,
        0x2e108fb3bc31678628a99e41216c4cf04fa80d281d08d7c94950f27e2ae1483int,
        0x1aa9e8a8ebc49a2e34000b9d221deccd9fdc092c47ad954184bee8d43e400463int,
        0xcf4d58df93efd7e4cff20b8973af57cd54ffd9c059642d593fc5102385d9d9eint,
        0x137ffeb7b73abe70ceefabddb6e00b416e2d5aae7f3d9c6c1c7d4e36e657edc2int,
    );
    step_modulus(
        0x674e41aa25559f3f6806ca7324f29int,
        0x137ffeb7b73abe70ceefabddb6e00b416e2d5aae7f3d9c6c1c7d4e36e657edc2int,
        8,
        0x3cff6d655422723a3749e8952ac26baf8dfc588b3e09763dbccb9ad75cdd4f7int,
        0x398ba34392d49c9723e07c2bc238094041fe25d997bf829401b20db6f5ac46b7int,
        0x19174ec212bbacaf5c908b527b944027cd664c985fcb5a576e32c46fc83c2c4cint,
        0x177022eaf54c8ac8f7f399c321ec4ca1834918c07313251cdfd75742612584f4int,
    );
}

/// A power of the base.
proof fn lemma_order_modulus()
    ensures
        pow(0x348cdb83aa5c808a180e82875bf3b391ef293ff1cd5f81d0c402c0be7bf67293int, 0x674e41aa25559f3f6806ca7324f298d5465dnat) % 0x40000000000000000000000000000000224698fc094cf91b992d30ed00000001int == 1,
{
    lemma_order_modulus_5();
    step_modulus(
        0x674e41aa25559f3f6806ca7324f298int,
        0x177022eaf54c8ac8f7f399c321ec4ca1834918c07313251cdfd75742612584f4int,
        13,
        0x12c0a22db4d7714c456538d6284632c0e70f31fee11a7eb6b394b068b6895f40int,
        0x31c4837fc850751db95e3c76f3873acb7a95a12b3714005a1e1d2c7864db5cf5int,
        0x1c4fdb2130102f55d7b1696a07e37b7d193c5febd88ce46751ffe8c2bad3da2cint,
        0xc6c44090344560255d6814401a61b385d5c29757e2483e3deb41799c225f5f8int,
    );
    step_modulus(
        0x674e41aa25559f3f6806ca7324f298dint,
        0xc6c44090344560255d6814401a61b385d5c29757e2483e3deb41799c225f5f8int,
        5,
        0x162a62282fb6d2d9a043161acd266d84f298cfeebacec89b6f041c9f8f53eed9int,
        0x2f78368c21025dd352e708e0f8418b7d59ae49ba016af8f462aa80f2b11841f0int,
        0x2ef614320357083566ab5613d4a80c5c72141fd673642b22c737c0d1ccee1634int,
        0x302940859da1aece2ddf6c89e7af3d23a9d245c59c4d6e4da81bf9e08def9717int,
    );
    step_modulus(
        0x674e41aa25559f3f6806ca7324f298d5int,
        0x302940859da1aece2ddf6c89e7af3d23a9d245c59c4d6e4da81bf9e08def9717int,
        4,
        0x2ed990789be06058e93d51e369f769091a535ee87972a331def0f0b660b4a11aint,
        0xe37a7de3a89f6d016a7ae20e72aeee34956e62b192881916bfbc19593a21a2dint,
        0x205d13f77393128199e5c5d52751c8fbcb44bb33165b52f8c35ad84505916648int,
        0x351380188dec6560606d555195669aa0496c0cd11b4be235b249828d264397ecint,
    );
    step_modulus(
        0x674e41aa25559f3f6806ca7324f298d54int,
        0x351380188dec6560606d555195669aa0496c0cd11b4be235b249828d264397ecint,
        6,
        0x152d0b80a60175dff18d2aab3eeb58bf92e8560f2bbc222b42f087f41d34eafbint,
        0x36337ea6063010350da77bfb0ec86d3324a3224bae9a7e633b05db115f01bb1dint,
        0x2592b9761c18c338024f5f4b8d9c20b97ba9c87569421735a832100efd14e0e1int,
        0x3bee96f6cef3f893786916ce8e49a276a467e03412068e5755d7d1f1745eb35bint,
    );
    step_modulus(
        0x674e41aa25559f3f6806ca7324f298d546int,
        0x3bee96f6cef3f893786916ce8e49a276a467e03412068e5755d7d1f1745eb35bint,
        5,
        0x2d539b0aa8c4d36540a2612b5c8cc2eaf63c9c9a7ce608dea0b2e39598256c1aint,
        0x39e315e9e208e1a1ea2b9b59dc736805ea420bf79074b2ffea7ca0e233f3f2d7int,
        0x2482cba5e7b276456167d3eb1a7b9b649bf1111eae05ae35111ebf3bfc71da88int,
        0xf416815724e7449fda9a1fce4529af89c393989da8e04557a79968c5b9dade5int,
    );
    step_modulus(
        0x674e41aa25559f3f6806ca7324f298d5465int,
        0xf416815724e7449fda9a1fce4529af89c393989da8e04557a79968c5b9dade5int,
        13,
        0x24ec77e260c1da12b308f13ce1255cda5b44e6bb09fba4f374c94fdf221f946eint,
        0xbdd2536e5fda77435734ac4157c1eec6938ae5c679ec6e1a21b225a96bb79d2int,
        0xf672184dc5fbe1bb7e043344b16c5fe79adbf07256d3ddc799d2096fcf5e4d4int,
        1,
    );
}

/// The number is prime.
proof fn lemma_prime_modulus()
    ensures
        prime::is_prime(0x40000000000000000000000000000000224698fc094cf91b992d30ed00000001int),
{
    lemma_order_modulus();
    lemma_pow1(0x348cdb83aa5c808a180e82875bf3b391ef293ff1cd5f81d0c402c0be7bf67293int);
    lemma_prime_cofactor();
    prime::lemma_prime_by_order(
        0x40000000000000000000000000000000224698fc094cf91b992d30ed00000001int,
        0x348cdb83aa5c808a180e82875bf3b391ef293ff1cd5f81d0c402c0be7bf67293int,
        0x674e41aa25559f3f6806ca7324f298d5465dint,
        0x674e41aa25559f3f6806ca7324f298d5465dint,
        1,
        0x1ddc3393b0469879b74d767baeb87ef9010fca1c6e3f21fa32a6f9c9a3d2827aint,
        0,
    );
}

/// The modulus of the field is prime.
pub proof fn modulus_is_prime()
    ensures
        prime::is_prime(field::modulus() as int),
{
    lemma_prime_modulus();
}

} // verus!

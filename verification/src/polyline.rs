//! The compact polyline codec at the integer level: coordinates scaled to
//! hundred-thousandths of a degree are delta-encoded, zigzag-mapped to
//! non-negative integers, and written as base-32 chunks offset into the
//! printable range. Scaling between floating-point degrees and these
//! integer units is a caller concern; the solver itself never consumes
//! geometry.

use vstd::prelude::*;

verus! {

/// Longest encoded string the decoder accepts; keeps every accumulated
/// coordinate comfortably inside `i64`.
pub const MAX_POLYLINE: usize = 1048576;

/// Largest coordinate magnitude, in hundred-thousandths of a degree, that
/// the encoder accepts. Covers every latitude and longitude.
pub const MAX_UNITS: i64 = 1073741824;

/// Relies on std's `String::push`: appends exactly the one character.
pub assume_specification[ String::push ](s: &mut String, c: char)
    ensures
        final(s)@ == old(s)@.push(c),
;

/// The zigzag map: non-negative integers to even numbers, negative ones
/// to odd numbers.
pub open spec fn zigzag(v: int) -> int {
    if v < 0 {
        -2 * v - 1
    } else {
        2 * v
    }
}

/// Its inverse.
pub open spec fn unzigzag(v: int) -> int {
    if v % 2 == 1 {
        -((v - 1) / 2) - 1
    } else {
        v / 2
    }
}

/// A non-negative value as base-32 chunks, low chunk first, each offset
/// by 63, with 32 added to every chunk but the last as a continuation
/// mark.
pub open spec fn chunk_chars(v: int) -> Seq<char>
    decreases v,
{
    if v < 32 {
        seq![((if v >= 0 { v } else { 0 }) + 63) as u8 as char]
    } else {
        seq![((v % 32 + 32 + 63) as u8) as char] + chunk_chars(v / 32)
    }
}

/// The value a varint starting at `i` denotes: five bits per character
/// (the character minus 63, modulo 32), low chunk first, ending at the
/// first character below the continuation mark or at the end of input.
pub open spec fn sv_val(s: Seq<char>, i: int) -> int
    decreases s.len() - i,
{
    if i < 0 || i >= s.len() {
        0
    } else {
        let b = s[i] as int - 63;
        let low = b % 32;
        if b < 32 {
            low
        } else {
            low + 32 * sv_val(s, i + 1)
        }
    }
}

/// The position right after that varint.
pub open spec fn sv_next(s: Seq<char>, i: int) -> int
    decreases s.len() - i,
{
    if i < 0 || i >= s.len() {
        i
    } else if (s[i] as int - 63) < 32 {
        i + 1
    } else {
        sv_next(s, i + 1)
    }
}

pub proof fn lemma_sv_next_bounds(s: Seq<char>, i: int)
    requires
        0 <= i <= s.len(),
    ensures
        i <= sv_next(s, i) <= s.len(),
        i < s.len() ==> i + 1 <= sv_next(s, i),
    decreases s.len() - i,
{
    if i < s.len() && (s[i] as int - 63) >= 32 {
        lemma_sv_next_bounds(s, i + 1);
    }
}

/// The decoded point list from position `i`, with running coordinates
/// `(lat, lng)`: each point adds the zigzag-decoded latitude and
/// longitude deltas read by two varints.
pub open spec fn spec_decode(s: Seq<char>, i: int, lat: int, lng: int) -> Seq<(i64, i64)>
    decreases s.len() - i,
    via spec_decode_decreases
{
    if i < 0 || i >= s.len() {
        Seq::empty()
    } else {
        let i1 = sv_next(s, i);
        let lat2 = lat + unzigzag(sv_val(s, i));
        let i2 = sv_next(s, i1);
        let lng2 = lng + unzigzag(sv_val(s, i1));
        seq![(lat2 as i64, lng2 as i64)] + spec_decode(s, i2, lat2, lng2)
    }
}

#[via_fn]
proof fn spec_decode_decreases(s: Seq<char>, i: int, lat: int, lng: int) {
    if 0 <= i < s.len() {
        lemma_sv_next_bounds(s, i);
        lemma_sv_next_bounds(s, sv_next(s, i));
    }
}

/// The encoding of the point list from index `i` on, against the previous
/// point `(plat, plng)`.
pub open spec fn spec_encode(points: Seq<(i64, i64)>, i: int, plat: int, plng: int) -> Seq<char>
    decreases points.len() - i,
{
    if i < 0 || i >= points.len() {
        Seq::empty()
    } else {
        let p = points[i];
        chunk_chars(zigzag(p.0 - plat)) + chunk_chars(zigzag(p.1 - plng)) + spec_encode(
            points,
            i + 1,
            p.0 as int,
            p.1 as int,
        )
    }
}

/// A character of the varint alphabet.
pub open spec fn alpha_ok(c: char) -> bool {
    63 <= (c as int) && (c as int) < 128
}

/// A character that ends a varint (no continuation mark).
pub open spec fn is_term(c: char) -> bool {
    (c as int) - 63 < 32
}

/// Some varint terminator within the seven characters from `q` on.
pub open spec fn window_ok(s: Seq<char>, q: int) -> bool {
    exists|j: int| q <= j <= q + 6 && is_term(#[trigger] s[j])
}

/// A string the decoder accepts: not over-long, every character in the
/// varint alphabet, and every varint terminated within seven characters,
/// so each decoded delta fits well inside `i64`.
pub open spec fn wf_polyline(s: Seq<char>) -> bool {
    &&& s.len() <= MAX_POLYLINE
    &&& (forall|i: int| 0 <= i < s.len() ==> alpha_ok(#[trigger] s[i]))
    &&& (forall|i: int|
        #![trigger window_ok(s, i)]
        0 <= i && i + 6 < s.len() ==> window_ok(s, i))
}

/// Every coordinate within the encoder's accepted range.
pub open spec fn points_in_units(ps: Seq<(i64, i64)>) -> bool {
    forall|i: int|
        0 <= i < ps.len() ==> -MAX_UNITS <= (#[trigger] ps[i]).0 <= MAX_UNITS && -MAX_UNITS
            <= ps[i].1 <= MAX_UNITS
}

/// A well-formed string has a terminator in every full window of seven.
pub proof fn lemma_wf_window(s: Seq<char>, q: int)
    requires
        wf_polyline(s),
        0 <= q,
        q + 6 < s.len(),
    ensures
        window_ok(s, q),
{
}

/// Unpack the window property into its witness form.
pub proof fn lemma_window_witness(s: Seq<char>, q: int)
    requires
        window_ok(s, q),
    ensures
        exists|j: int| q <= j <= q + 6 && is_term(#[trigger] s[j]),
{
}

/// Decide `wf_polyline`: length within bounds, every character in the
/// varint alphabet, and no seven consecutive continuation characters
/// inside the string. Callers holding an untrusted string check it here
/// before decoding.
#[verifier::rlimit(60)]
#[verifier::loop_isolation(false)]
pub fn is_wf_polyline(s: &str) -> (r: bool)
    ensures
        r == wf_polyline(s@),
{
    let n = s.unicode_len();
    if n > MAX_POLYLINE {
        return false;
    }
    let mut i: usize = 0;
    let mut run: usize = 0;
    while i < n
        invariant
            i <= n,
            n == s@.len(),
            n <= MAX_POLYLINE,
            run <= i,
            run <= 6,
            forall|q: int| 0 <= q < i ==> alpha_ok(#[trigger] s@[q]),
            forall|q: int| i - run <= q < i ==> !is_term(#[trigger] s@[q]),
            run == i || is_term(s@[i - run - 1]),
            forall|q: int| 0 <= q && q + 6 < i ==> #[trigger] window_ok(s@, q),
        decreases n - i,
    {
        let c = s.get_char(i);
        let cv = c as u32;
        if cv < 63 || cv >= 128 {
            proof {
                assert(!alpha_ok(s@[i as int]));
            }
            return false;
        }
        if cv - 63 < 32 {
            proof {
                assert(is_term(s@[i as int]));
                assert forall|q: int|
                    0 <= q && q + 6 < i + 1 implies #[trigger] window_ok(s@, q) by {
                    if q + 6 == i {
                        assert(q <= i as int <= q + 6 && is_term(s@[i as int]));
                    }
                }
            }
            run = 0;
        } else {
            if run == 6 {
                proof {
                    assert(!is_term(s@[i as int]));
                    assert(!wf_polyline(s@)) by {
                        if wf_polyline(s@) {
                            let q0 = i as int - 6;
                            assert(q0 + 6 < s@.len());
                            lemma_wf_window(s@, q0);
                            lemma_window_witness(s@, q0);
                            let j = choose|j: int| q0 <= j <= q0 + 6 && is_term(#[trigger] s@[j]);
                            assert(i - run <= j < i ==> !is_term(s@[j]));
                            assert(false);
                        }
                    }
                }
                return false;
            }
            proof {
                assert(!is_term(s@[i as int]));
                assert forall|q: int|
                    0 <= q && q + 6 < i + 1 implies #[trigger] window_ok(s@, q) by {
                    if q + 6 == i {
                        assert(run < i);
                        assert(q <= i - run - 1 <= q + 6 && is_term(s@[i - run - 1]));
                    }
                }
            }
            run = run + 1;
        }
        i = i + 1;
    }
    proof {
        assert(i == n);
        assert forall|q: int|
            0 <= q && q + 6 < s@.len() implies #[trigger] window_ok(s@, q) by {
            assert(q + 6 < i);
        }
        assert(wf_polyline(s@));
    }
    true
}

/// Powers of 32.
pub open spec fn pow32(n: nat) -> int
    decreases n,
{
    if n == 0 {
        1
    } else {
        32 * pow32((n - 1) as nat)
    }
}

/// Read one varint: its value and the position right after it, exactly
/// as `sv_val` and `sv_next` describe.
#[verifier::loop_isolation(false)]
fn decode_varint(s: &str, start: usize) -> (r: (u64, usize))
    requires
        wf_polyline(s@),
        start <= s@.len(),
    ensures
        r.0 as int == sv_val(s@, start as int),
        r.1 as int == sv_next(s@, start as int),
        start <= r.1 <= s@.len(),
        start < s@.len() ==> start + 1 <= r.1,
        r.0 < 0x800000000,
{
    let n = s.unicode_len();
    let mut idx = start;
    let mut result: u64 = 0;
    let mut mult: u64 = 1;
    let mut done = false;
    while !done
        invariant
            start <= idx <= n,
            idx - start <= 7,
            !done ==> idx - start <= 6,
            !done ==> mult as int == pow32((idx - start) as nat),
            !done ==> result < mult,
            !done ==> (forall|p: int| start <= p < idx ==> !is_term(#[trigger] s@[p])),
            !done ==> sv_val(s@, start as int) == result + mult * sv_val(s@, idx as int),
            !done ==> sv_next(s@, start as int) == sv_next(s@, idx as int),
            done ==> result as int == sv_val(s@, start as int),
            done ==> idx as int == sv_next(s@, start as int),
            done ==> result < 0x800000000,
            done && start < s@.len() ==> start < idx,
            mult <= 0x40000000,
        decreases (n - idx) + (if done {
            0int
        } else {
            1int
        }),
    {
        if idx >= n {
            proof {
                assert(sv_val(s@, idx as int) == 0);
                assert(result + mult * 0 == result) by (nonlinear_arith);
            }
            done = true;
        } else {
            let c = s.get_char(idx);
            proof {
                assert(alpha_ok(s@[idx as int]));
            }
            let b: u64 = (c as u32 as u64) - 63;
            let low: u64 = b % 32;
            let ghost idx_old = idx as int;
            let ghost result_old = result as int;
            let ghost mult_old = mult as int;
            idx = idx + 1;
            proof {
                assert(mult_old * (low as int) <= mult_old * 31) by (nonlinear_arith)
                    requires
                        0 <= low as int <= 31,
                        0 <= mult_old,
                ;
                assert(result_old + mult_old * (low as int) < mult_old * 32) by (nonlinear_arith)
                    requires
                        result_old < mult_old,
                        mult_old * (low as int) <= mult_old * 31,
                ;
            }
            result = result + mult * low;
            if b < 32 {
                proof {
                    assert(is_term(s@[idx_old]));
                    assert(sv_val(s@, idx_old) == low as int);
                    assert(sv_next(s@, idx_old) == idx_old + 1);
                    assert(result_old + mult_old * (low as int) == result as int);
                    assert(mult_old * 32 <= 0x40000000int * 32) by (nonlinear_arith)
                        requires
                            0 <= mult_old <= 0x40000000int,
                    ;
                }
                done = true;
            } else {
                proof {
                    assert(!is_term(s@[idx_old]));
                    assert(sv_val(s@, idx_old) == low as int + 32 * sv_val(s@, idx_old + 1));
                    assert(sv_next(s@, idx_old) == sv_next(s@, idx_old + 1));
                    assert(result_old + mult_old * (low as int + 32 * sv_val(s@, idx_old + 1))
                        == (result_old + mult_old * low as int) + (mult_old * 32) * sv_val(
                        s@,
                        idx_old + 1,
                    )) by (nonlinear_arith);
                    // The varint must terminate within seven characters, so
                    // this continuation cannot be the seventh.
                    assert(idx_old - start <= 5) by {
                        if idx_old - start == 6 {
                            assert(start + 6 < s@.len());
                            lemma_wf_window(s@, start as int);
                            lemma_window_witness(s@, start as int);
                            let j = choose|j: int|
                                start as int <= j <= start as int + 6 && is_term(
                                    #[trigger] s@[j],
                                );
                            assert(false);
                        }
                    }
                    assert(pow32((idx_old + 1 - start) as nat) == 32 * pow32(
                        (idx_old - start) as nat,
                    ));
                    assert(pow32(0) == 1);
                    assert(pow32(1) == 32);
                    assert(pow32(2) == 1024);
                    assert(pow32(3) == 32768);
                    assert(pow32(4) == 1048576);
                    assert(pow32(5) == 33554432);
                    assert(pow32(6) == 0x40000000);
                    assert(mult_old <= pow32(5)) by {
                        lemma_pow32_le((idx_old - start) as nat, 5);
                    }
                }
                mult = mult * 32;
            }
        }
    }
    (result, idx)
}

pub proof fn lemma_pow32_le(a: nat, b: nat)
    requires
        a <= b,
    ensures
        pow32(a) <= pow32(b),
        pow32(a) >= 1,
    decreases b,
{
    if b > 0 {
        if a == b {
            lemma_pow32_le((b - 1) as nat, (b - 1) as nat);
        } else {
            lemma_pow32_le(a, (b - 1) as nat);
        }
        assert(pow32(b) == 32 * pow32((b - 1) as nat));
    }
}

/// Decode a polyline string into integer coordinate points, exactly as
/// `spec_decode` describes.
#[verifier::rlimit(60)]
#[verifier::loop_isolation(false)]
pub fn decode_polyline(encoded: &str) -> (r: Vec<(i64, i64)>)
    requires
        wf_polyline(encoded@),
    ensures
        r@ == spec_decode(encoded@, 0, 0, 0),
{
    let n = encoded.unicode_len();
    let mut points: Vec<(i64, i64)> = Vec::new();
    let mut lat: i64 = 0;
    let mut lng: i64 = 0;
    let mut index: usize = 0;
    while index < n
        invariant
            index <= n,
            n == encoded@.len(),
            -(index as int) * 0x800000000 <= lat as int <= (index as int) * 0x800000000,
            -(index as int) * 0x800000000 <= lng as int <= (index as int) * 0x800000000,
            spec_decode(encoded@, 0, 0, 0) == points@ + spec_decode(
                encoded@,
                index as int,
                lat as int,
                lng as int,
            ),
        decreases n - index,
    {
        let ghost index_old = index as int;
        let ghost lat_old = lat as int;
        let ghost lng_old = lng as int;
        let (v1, i1) = decode_varint(encoded, index);
        let d1: i64 = if v1 % 2 == 1 {
            -(((v1 - 1) / 2) as i64) - 1
        } else {
            (v1 / 2) as i64
        };
        proof {
            assert(d1 as int == unzigzag(v1 as int));
        }
        lat = lat + d1;
        let (v2, i2) = decode_varint(encoded, i1);
        let d2: i64 = if v2 % 2 == 1 {
            -(((v2 - 1) / 2) as i64) - 1
        } else {
            (v2 / 2) as i64
        };
        proof {
            assert(d2 as int == unzigzag(v2 as int));
        }
        lng = lng + d2;
        let ghost points_old = points@;
        points.push((lat, lng));
        index = i2;
        proof {
            assert(spec_decode(encoded@, index_old, lat_old, lng_old) == seq![
                (lat, lng),
            ] + spec_decode(encoded@, index as int, lat as int, lng as int));
            assert(points_old + (seq![(lat, lng)] + spec_decode(
                encoded@,
                index as int,
                lat as int,
                lng as int,
            )) =~= points@ + spec_decode(encoded@, index as int, lat as int, lng as int));
        }
    }
    proof {
        assert(spec_decode(encoded@, n as int, lat as int, lng as int) =~= Seq::<(
            i64,
            i64,
        )>::empty());
        assert(points@ + Seq::<(i64, i64)>::empty() =~= points@);
    }
    points
}

/// Append one zigzag-encoded value to the output, exactly as
/// `chunk_chars` of its zigzag image describes.
#[verifier::loop_isolation(false)]
pub fn encode_value(value: i64, output: &mut String)
    requires
        -2147483648 <= value <= 2147483648,
    ensures
        final(output)@ == old(output)@ + chunk_chars(zigzag(value as int)),
{
    let ghost zig0 = zigzag(value as int);
    let mut v: u64 = if value < 0 {
        (((-value) as u64) * 2) - 1
    } else {
        (value as u64) * 2
    };
    proof {
        assert(v as int == zig0);
    }
    let ghost base = output@;
    while v >= 32
        invariant
            output@.len() >= base.len(),
            output@.take(base.len() as int) == base,
            chunk_chars(zig0) == output@.skip(base.len() as int) + chunk_chars(v as int),
        decreases v,
    {
        let chunk: u8 = ((v % 32) as u8 + 32) + 63;
        let c = chunk as char;
        let ghost out_old = output@;
        let ghost v_old = v as int;
        output.push(c);
        v = v / 32;
        proof {
            assert(chunk_chars(v_old) == seq![c] + chunk_chars(v as int));
            assert(out_old.skip(base.len() as int) + (seq![c] + chunk_chars(v as int))
                =~= output@.skip(base.len() as int) + chunk_chars(v as int));
            assert(output@.take(base.len() as int) =~= out_old.take(base.len() as int));
        }
    }
    let c_last = (v as u8 + 63) as char;
    let ghost out_old = output@;
    output.push(c_last);
    proof {
        assert(chunk_chars(v as int) == seq![c_last]);
        assert(out_old.skip(base.len() as int) + seq![c_last] =~= output@.skip(
            base.len() as int,
        ));
        assert(output@.take(base.len() as int) =~= base);
        assert(output@ =~= output@.take(base.len() as int) + output@.skip(base.len() as int));
    }
}

/// Encode integer coordinate points as a polyline string, exactly as
/// `spec_encode` describes.
#[verifier::loop_isolation(false)]
pub fn encode_polyline(points: &Vec<(i64, i64)>) -> (r: String)
    requires
        points_in_units(points@),
    ensures
        r@ == spec_encode(points@, 0, 0, 0),
{
    let mut encoded = String::new();
    let mut prev_lat: i64 = 0;
    let mut prev_lng: i64 = 0;
    let mut i: usize = 0;
    while i < points.len()
        invariant
            i <= points@.len(),
            -MAX_UNITS <= prev_lat <= MAX_UNITS,
            -MAX_UNITS <= prev_lng <= MAX_UNITS,
            spec_encode(points@, 0, 0, 0) == encoded@ + spec_encode(
                points@,
                i as int,
                prev_lat as int,
                prev_lng as int,
            ),
        decreases points@.len() - i,
    {
        let ghost i_old = i as int;
        let ghost plat_old = prev_lat as int;
        let ghost plng_old = prev_lng as int;
        let (plat, plng) = points[i];
        let ghost enc0 = encoded@;
        encode_value(plat - prev_lat, &mut encoded);
        let ghost enc1 = encoded@;
        encode_value(plng - prev_lng, &mut encoded);
        prev_lat = plat;
        prev_lng = plng;
        i = i + 1;
        proof {
            assert(spec_encode(points@, i_old, plat_old, plng_old) == chunk_chars(
                zigzag(plat as int - plat_old),
            ) + chunk_chars(zigzag(plng as int - plng_old)) + spec_encode(
                points@,
                i as int,
                plat as int,
                plng as int,
            ));
            assert(enc0 + (chunk_chars(zigzag(plat as int - plat_old)) + chunk_chars(
                zigzag(plng as int - plng_old),
            ) + spec_encode(points@, i as int, plat as int, plng as int)) =~= encoded@
                + spec_encode(points@, i as int, plat as int, plng as int));
        }
    }
    proof {
        assert(spec_encode(points@, points@.len() as int, prev_lat as int, prev_lng as int)
            =~= Seq::<char>::empty());
        assert(encoded@ + Seq::<char>::empty() =~= encoded@);
    }
    encoded
}

/// Reading a varint from position `i` is reading it from the front of
/// the remaining string.
proof fn lemma_sv_skip(s: Seq<char>, i: int)
    requires
        0 <= i <= s.len(),
    ensures
        sv_val(s, i) == sv_val(s.skip(i), 0),
        sv_next(s, i) == i + sv_next(s.skip(i), 0),
    decreases s.len() - i,
{
    if i >= s.len() {
        assert(s.skip(i) =~= Seq::<char>::empty());
    } else {
        assert(s.skip(i)[0] == s[i]);
        if (s[i] as int - 63) < 32 {
        } else {
            lemma_sv_skip(s, i + 1);
            lemma_sv_skip(s.skip(i), 1);
            assert(s.skip(i).skip(1) =~= s.skip(i + 1));
        }
    }
}

/// A value's chunks followed by anything read back as that value, the
/// read stopping right after the chunks.
proof fn lemma_varint_prepend(v: int, tail: Seq<char>)
    requires
        0 <= v,
    ensures
        sv_val(chunk_chars(v) + tail, 0) == v,
        sv_next(chunk_chars(v) + tail, 0) == chunk_chars(v).len(),
    decreases v,
{
    let s = chunk_chars(v) + tail;
    if v < 32 {
        let c = ((v + 63) as u8) as char;
        assert(chunk_chars(v) =~= seq![c]);
        assert(s[0] == c);
        assert((c as int) == v + 63);
    } else {
        let c = ((v % 32 + 32 + 63) as u8) as char;
        assert(s[0] == c);
        assert((c as int) == v % 32 + 95);
        lemma_varint_prepend(v / 32, tail);
        lemma_sv_skip(s, 1);
        assert(s.skip(1) =~= chunk_chars(v / 32) + tail);
        assert(v % 32 + 32 * (v / 32) == v);
    }
}

/// The zigzag map is undone by its inverse.
proof fn lemma_unzigzag(v: int)
    ensures
        unzigzag(zigzag(v)) == v,
{
}

/// Decoding from position `i` is decoding the remaining string.
proof fn lemma_decode_skip(s: Seq<char>, i: int, lat: int, lng: int)
    requires
        0 <= i <= s.len(),
    ensures
        spec_decode(s, i, lat, lng) == spec_decode(s.skip(i), 0, lat, lng),
    decreases s.len() - i,
{
    if i >= s.len() {
        assert(s.skip(i) =~= Seq::<char>::empty());
    } else {
        let t = s.skip(i);
        lemma_sv_skip(s, i);
        let i1 = sv_next(s, i);
        lemma_sv_next_bounds(s, i);
        lemma_sv_skip(s, i1);
        lemma_sv_next_bounds(s.skip(i), 0);
        lemma_sv_skip(t, sv_next(t, 0));
        lemma_sv_next_bounds(t, 0);
        lemma_sv_next_bounds(t, sv_next(t, 0));
        assert(s.skip(i1) =~= t.skip(sv_next(t, 0)));
        let i2 = sv_next(s, i1);
        lemma_sv_next_bounds(s, i1);
        lemma_decode_skip(s, i2, lat + unzigzag(sv_val(s, i)), lng + unzigzag(sv_val(s, i1)));
        lemma_decode_skip(
            t,
            sv_next(t, sv_next(t, 0)),
            lat + unzigzag(sv_val(t, 0)),
            lng + unzigzag(sv_val(t, sv_next(t, 0))),
        );
        assert(s.skip(i2) =~= t.skip(sv_next(t, sv_next(t, 0))));
    }
}

/// Decoding an encoding gives back the points: the codec pair is a
/// round trip on in-range coordinates, from any starting point and
/// running origin.
pub proof fn lemma_round_trip_from(points: Seq<(i64, i64)>, i: int, plat: int, plng: int)
    requires
        0 <= i <= points.len(),
        points_in_units(points),
        -MAX_UNITS <= plat <= MAX_UNITS,
        -MAX_UNITS <= plng <= MAX_UNITS,
    ensures
        spec_decode(spec_encode(points, i, plat, plng), 0, plat, plng) == points.skip(i),
    decreases points.len() - i,
{
    let s = spec_encode(points, i, plat, plng);
    if i >= points.len() {
        assert(s =~= Seq::<char>::empty());
        assert(points.skip(i) =~= Seq::<(i64, i64)>::empty());
    } else {
        let p = points[i];
        let d1 = p.0 - plat;
        let d2 = p.1 - plng;
        let c1 = chunk_chars(zigzag(d1));
        let c2 = chunk_chars(zigzag(d2));
        let rest = spec_encode(points, i + 1, p.0 as int, p.1 as int);
        assert(s =~= c1 + (c2 + rest));
        lemma_varint_prepend(zigzag(d1), c2 + rest);
        lemma_unzigzag(d1);
        let i1 = sv_next(s, 0);
        lemma_sv_skip(s, i1);
        assert(s.skip(i1) =~= c2 + rest);
        lemma_varint_prepend(zigzag(d2), rest);
        lemma_unzigzag(d2);
        let i2 = sv_next(s, i1);
        assert(i2 == i1 + c2.len());
        lemma_decode_skip(s, i2, p.0 as int, p.1 as int);
        assert(s.skip(i2) =~= rest);
        lemma_round_trip_from(points, i + 1, p.0 as int, p.1 as int);
        assert(p == (p.0, p.1));
        assert(spec_decode(s, 0, plat, plng) =~= seq![p] + points.skip(i + 1));
        assert(points.skip(i) =~= seq![p] + points.skip(i + 1));
    }
}

/// The round trip at the origin: decoding an encoded point list gives
/// the list back.
pub proof fn lemma_round_trip(points: Seq<(i64, i64)>)
    requires
        points_in_units(points),
    ensures
        spec_decode(spec_encode(points, 0, 0, 0), 0, 0, 0) == points,
{
    lemma_round_trip_from(points, 0, 0, 0);
    assert(points.skip(0) =~= points);
}

} // verus!

use vstd::prelude::*;
use vstd::arithmetic::div_mod::{lemma_mod_breakdown, lemma_small_mod};
use vstd::string::StringExecFns;

verus! {

/// The number of fields of an output tuple: id, sequence number, event, ingestion and
/// output timestamps.
pub const OUTPUT_TUPLE_FIELDS: usize = 5;

/// `256` to the power `n`.
pub open spec fn pow256(n: nat) -> nat
    decreases n,
{
    if n == 0 {
        1
    } else {
        256 * pow256((n - 1) as nat)
    }
}

/// The number that `b` encodes, least significant byte first.
pub open spec fn le_value(b: Seq<u8>) -> nat
    decreases b.len(),
{
    if b.len() == 0 {
        0
    } else {
        (b[0] + 256 * le_value(b.drop_first())) as nat
    }
}

/// The `n` low bytes of `x`, least significant first.
pub open spec fn le_bytes(x: nat, n: nat) -> Seq<u8>
    decreases n,
{
    if n == 0 {
        Seq::empty()
    } else {
        seq![(x % 256) as u8] + le_bytes(x / 256, (n - 1) as nat)
    }
}

/// The decimal digits.
pub open spec fn digit_chars() -> Seq<char> {
    seq!['0', '1', '2', '3', '4', '5', '6', '7', '8', '9']
}

/// The decimal representation of `n`, without leading zeros.
pub open spec fn decimal(n: nat) -> Seq<char>
    decreases n,
{
    if n < 10 {
        seq![digit_chars()[n as int]]
    } else {
        decimal(n / 10).push(digit_chars()[(n % 10) as int])
    }
}

/// The numbers `vals` in decimal, separated by commas.
pub open spec fn csv_line(vals: Seq<nat>) -> Seq<char>
    decreases vals.len(),
{
    if vals.len() == 0 {
        Seq::empty()
    } else if vals.len() == 1 {
        decimal(vals[0])
    } else {
        csv_line(vals.drop_last()).push(',') + decimal(vals.last())
    }
}

/// The first `count` fields of a binary tuple: consecutive 8-byte little-endian numbers.
pub open spec fn tuple_fields(b: Seq<u8>, count: nat) -> Seq<nat> {
    Seq::new(count, |i: int| le_value(b.subrange(8 * i, 8 * i + 8)))
}

/// A little-endian number of `n` bytes is below `256` to the power `n`.
pub proof fn lemma_le_value_bound(b: Seq<u8>)
    ensures
        le_value(b) < pow256(b.len()),
    decreases b.len(),
{
    if b.len() > 0 {
        lemma_le_value_bound(b.drop_first());
    }
}

/// Reads the 8 bytes of `b` from `offset` as a little-endian number.
pub fn read_u64_le(b: &[u8], offset: usize) -> (r: u64)
    requires
        offset + 8 <= b@.len(),
    ensures
        r == le_value(b@.subrange(offset as int, offset + 8)),
{
    let len = b.len();
    let mut v: u64 = 0;
    let mut i: usize = 8;
    assert(b@.subrange(offset + 8, offset + 8) =~= Seq::<u8>::empty());
    while i > 0
        invariant
            i <= 8,
            len == b@.len(),
            offset + 8 <= b@.len(),
            v == le_value(b@.subrange(offset + i, offset + 8)),
        decreases i,
    {
        let ghost rest = b@.subrange(offset + i, offset + 8);
        proof {
            lemma_le_value_bound(rest);
            lemma_pow256_eight();
            lemma_pow256_monotonic((8 - i + 1) as nat, 8);
        }
        i = i - 1;
        let byte = b[offset + i];
        proof {
            assert(b@.subrange(offset + i, offset + 8).drop_first() =~= rest);
        }
        v = v * 256 + byte as u64;
    }
    v
}

/// Eight bytes hold exactly the values of a `u64`.
proof fn lemma_pow256_eight()
    ensures
        pow256(8) == u64::MAX + 1,
{
    reveal_with_fuel(pow256, 9);
}

/// Powers of 256 grow with the exponent.
proof fn lemma_pow256_monotonic(m: nat, n: nat)
    requires
        m <= n,
    ensures
        pow256(m) <= pow256(n),
    decreases n - m,
{
    if m < n {
        lemma_pow256_monotonic(m, (n - 1) as nat);
        lemma_pow256_positive((n - 1) as nat);
    }
}

proof fn lemma_pow256_positive(n: nat)
    ensures
        pow256(n) > 0,
    decreases n,
{
    if n > 0 {
        lemma_pow256_positive((n - 1) as nat);
    }
}

/// The decimal digit `d` as a string.
fn digit_str(d: u64) -> (r: &'static str)
    requires
        d < 10,
    ensures
        r@ == seq![digit_chars()[d as int]],
{
    proof {
        reveal_strlit("0");
        reveal_strlit("1");
        reveal_strlit("2");
        reveal_strlit("3");
        reveal_strlit("4");
        reveal_strlit("5");
        reveal_strlit("6");
        reveal_strlit("7");
        reveal_strlit("8");
        reveal_strlit("9");
    }
    let r = if d == 0 {
        "0"
    } else if d == 1 {
        "1"
    } else if d == 2 {
        "2"
    } else if d == 3 {
        "3"
    } else if d == 4 {
        "4"
    } else if d == 5 {
        "5"
    } else if d == 6 {
        "6"
    } else if d == 7 {
        "7"
    } else if d == 8 {
        "8"
    } else {
        "9"
    };
    assert(r@ =~= seq![digit_chars()[d as int]]);
    r
}

/// Appends `n` in decimal to `s`.
pub fn push_decimal(s: &mut String, n: u64)
    ensures
        final(s)@ == old(s)@ + decimal(n as nat),
    decreases n,
{
    if n >= 10 {
        push_decimal(s, n / 10);
    }
    s.append(digit_str(n % 10));
    proof {
        if n >= 10 {
            assert(old(s)@ + decimal((n / 10) as nat) + seq![digit_chars()[(n % 10) as int]] =~= old(s)@
                + decimal(n as nat));
        } else {
            assert(old(s)@ + seq![digit_chars()[(n % 10) as int]] =~= old(s)@ + decimal(n as nat));
        }
    }
}

/// The first `field_count` fields of a binary tuple, in decimal, separated by commas.
pub fn fields_to_csv(binary_tuple: &[u8], field_count: usize) -> (r: String)
    requires
        8 * field_count <= binary_tuple@.len(),
    ensures
        r@ == csv_line(tuple_fields(binary_tuple@, field_count as nat)),
{
    let len = binary_tuple.len();
    let mut s = String::new();
    let mut i: usize = 0;
    proof {
        assert(tuple_fields(binary_tuple@, 0) =~= Seq::<nat>::empty());
    }
    while i < field_count
        invariant
            i <= field_count,
            len == binary_tuple@.len(),
            8 * field_count <= binary_tuple@.len(),
            s@ == csv_line(tuple_fields(binary_tuple@, i as nat)),
        decreases field_count - i,
    {
        if i > 0 {
            proof {
                reveal_strlit(",");
            }
            s.append(",");
        }
        let value = read_u64_le(binary_tuple, 8 * i);
        push_decimal(&mut s, value);
        proof {
            let next = tuple_fields(binary_tuple@, (i + 1) as nat);
            assert(next.drop_last() =~= tuple_fields(binary_tuple@, i as nat));
            assert(next.last() == value);
            if i == 0 {
                assert(s@ =~= csv_line(next));
            } else {
                assert(s@ =~= csv_line(next));
            }
        }
        i = i + 1;
    }
    s
}

/// An output tuple as a line of comma-separated numbers: id, sequence number, event,
/// ingestion and output timestamps.
pub fn get_tuple_string(binary_tuple: &[u8]) -> (r: String)
    requires
        8 * OUTPUT_TUPLE_FIELDS <= binary_tuple@.len(),
    ensures
        r@ == csv_line(tuple_fields(binary_tuple@, OUTPUT_TUPLE_FIELDS as nat)),
{
    fields_to_csv(binary_tuple, OUTPUT_TUPLE_FIELDS)
}

/// Appends the 8 bytes of `x` to `out`, least significant first.
pub fn push_u64_le(out: &mut Vec<u8>, x: u64)
    ensures
        final(out)@ == old(out)@ + le_bytes(x as nat, 8),
{
    let ghost start = out@;
    let mut v: u64 = x;
    let mut i: usize = 0;
    while i < 8
        invariant
            i <= 8,
            out@ + le_bytes(v as nat, (8 - i) as nat) == start + le_bytes(x as nat, 8),
        decreases 8 - i,
    {
        let ghost before = out@;
        let ghost old_v = v;
        out.push((v % 256) as u8);
        v = v / 256;
        proof {
            assert(le_bytes(old_v as nat, (8 - i) as nat) == seq![(old_v % 256) as u8] + le_bytes(
                v as nat,
                (8 - i - 1) as nat,
            ));
            assert(out@ + le_bytes(v as nat, (8 - i - 1) as nat) =~= before + le_bytes(
                old_v as nat,
                (8 - i) as nat,
            ));
        }
        i = i + 1;
    }
    assert(out@ =~= out@ + le_bytes(v as nat, 0));
}

/// The bytes of input tuples from source `id`: one tuple per entry of `timestamps`, each
/// the id, the next sequence number and the timestamp, as 8-byte little-endian numbers.
/// `sequence_nr` advances by one per tuple.
pub fn generate_data(id: u64, sequence_nr: &mut u64, timestamps: &Vec<u64>) -> (r: Vec<u8>)
    requires
        *old(sequence_nr) + timestamps@.len() <= u64::MAX,
    ensures
        *final(sequence_nr) == *old(sequence_nr) + timestamps@.len(),
        r@.len() == 24 * timestamps@.len(),
        forall|i: int|
            0 <= i < timestamps@.len() ==> #[trigger] r@.subrange(24 * i, 24 * i + 24) == le_bytes(id as nat, 8)
                + le_bytes((*old(sequence_nr) + i) as nat, 8) + le_bytes(timestamps@[i] as nat, 8),
{
    let ghost first = *sequence_nr;
    let mut tuple_data: Vec<u8> = Vec::new();
    let mut i: usize = 0;
    while i < timestamps.len()
        invariant
            i <= timestamps@.len(),
            first + timestamps@.len() <= u64::MAX,
            *sequence_nr == first + i,
            tuple_data@.len() == 24 * i,
            forall|j: int|
                0 <= j < i ==> #[trigger] tuple_data@.subrange(24 * j, 24 * j + 24) == le_bytes(id as nat, 8)
                    + le_bytes((first + j) as nat, 8) + le_bytes(timestamps@[j] as nat, 8),
        decreases timestamps@.len() - i,
    {
        let ghost before = tuple_data@;
        push_u64_le(&mut tuple_data, id);
        push_u64_le(&mut tuple_data, *sequence_nr);
        push_u64_le(&mut tuple_data, timestamps[i]);
        proof {
            lemma_le_bytes_len(id as nat, 8);
            lemma_le_bytes_len(*sequence_nr as nat, 8);
            lemma_le_bytes_len(timestamps@[i as int] as nat, 8);
            assert forall|j: int| 0 <= j < i + 1 implies #[trigger] tuple_data@.subrange(24 * j, 24 * j + 24)
                == le_bytes(id as nat, 8) + le_bytes((first + j) as nat, 8) + le_bytes(timestamps@[j] as nat, 8) by {
                if j < i {
                    assert(tuple_data@.subrange(24 * j, 24 * j + 24) =~= before.subrange(24 * j, 24 * j + 24));
                } else {
                    assert(tuple_data@.subrange(24 * j, 24 * j + 24) =~= le_bytes(id as nat, 8) + le_bytes(
                        (first + j) as nat,
                        8,
                    ) + le_bytes(timestamps@[j] as nat, 8));
                }
            }
        }
        *sequence_nr = *sequence_nr + 1;
        i = i + 1;
    }
    tuple_data
}

/// `le_bytes(x, n)` has `n` bytes.
proof fn lemma_le_bytes_len(x: nat, n: nat)
    ensures
        le_bytes(x, n).len() == n,
    decreases n,
{
    if n > 0 {
        lemma_le_bytes_len(x / 256, (n - 1) as nat);
    }
}

/// Decoding `n` encoded bytes gives back the number modulo `256` to the power `n`.
proof fn lemma_le_decode_encode(x: nat, n: nat)
    ensures
        le_value(le_bytes(x, n)) == x % pow256(n),
    decreases n,
{
    lemma_le_bytes_len(x, n);
    if n == 0 {
        lemma_small_mod(0, 1);
        assert(x % 1 == 0);
    } else {
        lemma_le_decode_encode(x / 256, (n - 1) as nat);
        lemma_pow256_positive((n - 1) as nat);
        let b = le_bytes(x, n);
        assert(b.drop_first() =~= le_bytes(x / 256, (n - 1) as nat));
        lemma_mod_breakdown(x as int, 256, pow256((n - 1) as nat) as int);
    }
}

/// Reading back the bytes that `push_u64_le` wrote gives the number written, so a field
/// of a generated tuple decodes to the value it was generated from.
pub proof fn lemma_u64_round_trip(x: u64)
    ensures
        le_bytes(x as nat, 8).len() == 8,
        le_value(le_bytes(x as nat, 8)) == x,
{
    lemma_le_bytes_len(x as nat, 8);
    lemma_le_decode_encode(x as nat, 8);
    lemma_pow256_eight();
    lemma_small_mod(x as nat, pow256(8));
}

} // verus!

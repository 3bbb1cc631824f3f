//! Lowercase hexadecimal encoding of byte strings, used to derive an
//! asset's store name from its content identifier.

use vstd::prelude::*;

verus! {

/// The lowercase hexadecimal digit for a value below sixteen.
pub open spec fn hex_digit(n: u8) -> char {
    match n {
        0u8 => '0',
        1u8 => '1',
        2u8 => '2',
        3u8 => '3',
        4u8 => '4',
        5u8 => '5',
        6u8 => '6',
        7u8 => '7',
        8u8 => '8',
        9u8 => '9',
        10u8 => 'a',
        11u8 => 'b',
        12u8 => 'c',
        13u8 => 'd',
        14u8 => 'e',
        15u8 => 'f',
        _ => '?',
    }
}

/// The lowercase hexadecimal encoding of a byte string: two digits per
/// byte, high nibble first.
pub open spec fn hex_of(bytes: Seq<u8>) -> Seq<char>
    decreases bytes.len(),
{
    if bytes.len() == 0 {
        Seq::<char>::empty()
    } else {
        seq![hex_digit(bytes[0] / 16), hex_digit(bytes[0] % 16)] + hex_of(bytes.drop_first())
    }
}

/// The encoding is twice as long as its input.
pub proof fn lemma_hex_len(bytes: Seq<u8>)
    ensures
        hex_of(bytes).len() == 2 * bytes.len(),
    decreases bytes.len(),
{
    if bytes.len() > 0 {
        lemma_hex_len(bytes.drop_first());
    }
}

/// The two-character string for one hexadecimal byte value.
fn byte_str(n: u8) -> (r: &'static str)
    requires
        n < 16,
    ensures
        r@ == seq![hex_digit(n)],
{
    proof {
        reveal_strlit("0");
        reveal_strlit("1");
        reveal_strlit("2");
        reveal_strlit("3");
        reveal_strlit("4");
        reveal_strlit("5");
        reveal_strlit("6");
        reveal_strlit("7");
        reveal_strlit("8");
        reveal_strlit("9");
        reveal_strlit("a");
        reveal_strlit("b");
        reveal_strlit("c");
        reveal_strlit("d");
        reveal_strlit("e");
        reveal_strlit("f");
    }
    match n {
        0u8 => "0",
        1u8 => "1",
        2u8 => "2",
        3u8 => "3",
        4u8 => "4",
        5u8 => "5",
        6u8 => "6",
        7u8 => "7",
        8u8 => "8",
        9u8 => "9",
        10u8 => "a",
        11u8 => "b",
        12u8 => "c",
        13u8 => "d",
        14u8 => "e",
        _ => "f",
    }
}

/// Encodes a byte string as lowercase hexadecimal, two digits per byte.
pub fn to_hex(input: &[u8]) -> (r: String)
    ensures
        r@ == hex_of(input@),
{
    let mut out = String::new();
    let mut i: usize = 0;
    while i < input.len()
        invariant
            i <= input.len(),
            out@ == hex_of(input@.subrange(0, i as int)),
        decreases input.len() - i,
    {
        let b = input[i];
        out.append(byte_str(b / 16));
        out.append(byte_str(b % 16));
        i = i + 1;
        proof {
            lemma_hex_snoc(input@.subrange(0, i as int));
            assert(input@.subrange(0, i as int).drop_last() =~= input@.subrange(0, i - 1));
        }
    }
    proof {
        assert(input@.subrange(0, input@.len() as int) =~= input@);
    }
    out
}

/// Unfolds the encoding at the right end: encoding a byte string is the
/// encoding of all but its last byte followed by that byte's two digits.
proof fn lemma_hex_snoc(bytes: Seq<u8>)
    requires
        bytes.len() > 0,
    ensures
        hex_of(bytes) == hex_of(bytes.drop_last()) + seq![
            hex_digit(bytes.last() / 16),
            hex_digit(bytes.last() % 16),
        ],
    decreases bytes.len(),
{
    if bytes.len() == 1 {
        assert(bytes.drop_last() =~= Seq::<u8>::empty());
        assert(bytes.drop_first() =~= Seq::<u8>::empty());
        assert(hex_of(bytes.drop_first()) == Seq::<char>::empty());
        assert(hex_of(bytes.drop_last()) == Seq::<char>::empty());
        assert(bytes.last() == bytes[0]);
        assert(hex_of(bytes) == seq![hex_digit(bytes[0] / 16), hex_digit(bytes[0] % 16)]
            + hex_of(bytes.drop_first()));
        assert(hex_of(bytes) =~= hex_of(bytes.drop_last()) + seq![
            hex_digit(bytes.last() / 16),
            hex_digit(bytes.last() % 16),
        ]);
    } else {
        let dl = bytes.drop_last();
        let df = bytes.drop_first();
        lemma_hex_snoc(df);
        assert(df.last() == bytes.last());
        assert(df.drop_last() =~= dl.drop_first());
        assert(dl.len() > 0);
        assert(dl[0] == bytes[0]);
        assert(hex_of(bytes) == seq![hex_digit(bytes[0] / 16), hex_digit(bytes[0] % 16)] + hex_of(df));
        assert(hex_of(dl) == seq![hex_digit(dl[0] / 16), hex_digit(dl[0] % 16)] + hex_of(dl.drop_first()));
        assert(hex_of(bytes) =~= hex_of(dl) + seq![
            hex_digit(bytes.last() / 16),
            hex_digit(bytes.last() % 16),
        ]);
    }
}

} // verus!

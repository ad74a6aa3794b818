use vstd::prelude::*;

verus! {

/// The last `w` decimal digits of `x`, most significant first, padded with
/// leading zeros.
pub open spec fn padded_digits(x: nat, w: nat) -> Seq<u8>
    decreases w,
{
    if w == 0 {
        Seq::empty()
    } else {
        padded_digits(x / 10, (w - 1) as nat).push((x % 10) as u8)
    }
}

/// Splits `x` into its last `width` decimal digits, most significant first.
pub fn split_block(x: u64, width: u32) -> (r: Vec<u8>)
    ensures
        r@ == padded_digits(x as nat, width as nat),
        r@.len() == width,
{
    let mut out: Vec<u8> = Vec::new();
    let mut m: u64 = x;
    let mut i: u32 = 0;
    while i < width
        invariant
            i <= width,
            out@.len() == i,
            padded_digits(x as nat, width as nat) == padded_digits(m as nat, (width - i) as nat) + out@,
        decreases width - i,
    {
        let d: u8 = (m % 10) as u8;
        proof {
            assert(padded_digits(m as nat, (width - i) as nat)
                == padded_digits((m / 10) as nat, (width - i - 1) as nat).push(d));
        }
        out.insert(0, d);
        proof {
            assert(padded_digits(x as nat, width as nat)
                =~= padded_digits((m / 10) as nat, (width - i - 1) as nat) + out@);
        }
        m = m / 10;
        i = i + 1;
    }
    assert(padded_digits(m as nat, 0) + out@ =~= out@);
    out
}

/// Packs up to four digits into one byte: the low two bits of each digit, the
/// first digit in the highest place.
pub open spec fn pack_digits_spec(ds: Seq<u8>) -> int
    decreases ds.len(),
{
    if ds.len() == 0 {
        0
    } else {
        pack_digits_spec(ds.drop_last()) * 4 + (ds.last() % 4) as int
    }
}

/// Computes `pack_digits_spec(ds)`.
pub fn pack_digits(ds: &Vec<u8>) -> (r: u8)
    requires
        ds@.len() <= 4,
    ensures
        r == pack_digits_spec(ds@),
{
    let mut acc: u8 = 0;
    let mut i: usize = 0;
    proof {
        reveal(vstd::arithmetic::power::pow);
    }
    while i < ds.len()
        invariant
            ds@.len() <= 4,
            0 <= i <= ds@.len(),
            acc == pack_digits_spec(ds@.subrange(0, i as int)),
            acc < vstd::arithmetic::power::pow(4, i as nat),
        decreases ds@.len() - i,
    {
        proof {
            reveal_with_fuel(vstd::arithmetic::power::pow, 5);
            let pre = ds@.subrange(0, i as int + 1);
            assert(pre.drop_last() =~= ds@.subrange(0, i as int));
        }
        assert(acc < 64);
        acc = acc * 4 + ds[i] % 4;
        i = i + 1;
    }
    assert(ds@.subrange(0, i as int) =~= ds@);
    acc
}

} // verus!

//! Writing elements one after the other.

use vstd::prelude::*;

use crate::element::SimpleAsn1Element;

verus! {

/// The digits of `n` in base 256, the most significant first and without leading zeros.
pub open spec fn base256(n: nat) -> Seq<u8>
    decreases n,
{
    if n == 0 {
        Seq::empty()
    } else {
        base256(n / 256).push((n % 256) as u8)
    }
}

/// The length octets of an element whose contents are `n` octets long.
pub open spec fn length_octets(n: nat) -> Seq<u8> {
    if n < 128 {
        seq![n as u8]
    } else {
        seq![(0x80 + base256(n).len()) as u8] + base256(n)
    }
}

/// The encoding of an element with the tag `tag` and the contents `data`.
pub open spec fn element(tag: u8, data: Seq<u8>) -> Seq<u8> {
    seq![tag] + length_octets(data.len()) + data
}

/// Collects what is written. Its view is all that has been written so far.
pub struct Writer {
    data: Vec<u8>,
}

impl View for Writer {
    type V = Seq<u8>;

    closed spec fn view(&self) -> Seq<u8> {
        self.data@
    }
}

impl Writer {
    /// A writer that writes to the end of `data`.
    pub fn new_with_storage(data: Vec<u8>) -> (w: Writer)
        ensures
            w@ == data@,
    {
        Writer { data }
    }

    /// What has been written, after what the storage held to begin with.
    pub fn into_storage(self) -> (data: Vec<u8>)
        ensures
            data@ == self@,
    {
        self.data
    }

    fn push_base256(&mut self, n: usize)
        ensures
            final(self)@ == old(self)@ + base256(n as nat),
        decreases n,
    {
        if n > 0 {
            self.push_base256(n / 256);
            self.data.push((n % 256) as u8);
        }
    }

    /// Writes `val` as an element of type `T`: the tag, the length of the contents, and the
    /// contents.
    pub fn write_element_with_type<'a, T: SimpleAsn1Element<'a>>(&mut self, val: T::WriteType)
        requires
            T::writable(val),
        ensures
            exists|data: Seq<u8>| #[trigger]
                T::encodes(val, data) && T::adds(val, Seq::empty(), data) && final(self)@ == old(
                    self,
                )@ + element(T::tag(), data),
    {
        proof {
            T::lemma_tag();
        }
        let mut contents: Vec<u8> = Vec::new();
        T::write_data(&mut contents, val);
        let ghost data = contents@;
        assert(T::encodes(val, data) && T::adds(val, Seq::empty(), data)) by {
            let d = choose|d: Seq<u8>| #[trigger]
                T::encodes(val, d) && T::adds(val, Seq::empty(), d) && contents@ == Seq::<
                    u8,
                >::empty() + d;
            assert(contents@ == d);
        }
        self.data.push(T::TAG);
        let n: usize = contents.len();
        if n < 128 {
            self.data.push(n as u8);
        } else {
            let count: u8 = base256_len(n);
            self.data.push(0x80 + count);
            self.push_base256(n);
        }
        self.data.append(&mut contents);
        assert(self@ == old(self)@ + element(T::tag(), data));
    }
}

/// The number of digits of `n` in base 256.
fn base256_len(n: usize) -> (count: u8)
    ensures
        count == base256(n as nat).len(),
        count <= 8,
{
    let mut count: u8 = 0;
    let mut left: usize = n;
    assert(left as nat <= 0xffff_ffff_ffff_ffff);
    while left > 0
        invariant
            count + base256(left as nat).len() == base256(n as nat).len(),
            count <= 8,
            count == 0 ==> left <= 0xffff_ffff_ffff_ffff,
            count == 1 ==> left <= 0xff_ffff_ffff_ffff,
            count == 2 ==> left <= 0xffff_ffff_ffff,
            count == 3 ==> left <= 0xff_ffff_ffff,
            count == 4 ==> left <= 0xffff_ffff,
            count == 5 ==> left <= 0xff_ffff,
            count == 6 ==> left <= 0xffff,
            count == 7 ==> left <= 0xff,
            count == 8 ==> left == 0,
        decreases left,
    {
        count = count + 1;
        left = left / 256;
    }
    count
}

} // verus!

//! A stream of input bytes.
use vstd::prelude::*;

verus! {

/// A cursor over input bytes. Its view is the sequence of the bytes that are left.
#[derive(Debug)]
pub struct InputStream {
    buf: Vec<u8>,
    cursor: usize,
}

impl View for InputStream {
    type V = Seq<u8>;

    closed spec fn view(&self) -> Seq<u8> {
        self.buf@.skip(self.cursor as int)
    }
}

/// How many of `wanted` bytes can be had of `left`.
pub open spec fn read_count(left: Seq<u8>, wanted: nat) -> nat {
    if left.len() < wanted {
        left.len()
    } else {
        wanted
    }
}

/// What `wanted` bytes read from `left` are: bytes beyond the end are zero.
pub open spec fn read_bytes(left: Seq<u8>, wanted: nat) -> Seq<u8> {
    Seq::new(
        wanted,
        |i: int|
            if i < left.len() {
                left[i]
            } else {
                0u8
            },
    )
}

impl Clone for InputStream {
    fn clone(&self) -> (copy: Self)
        ensures
            copy@ == self@,
    {
        proof {
            use_type_invariant(self);
        }
        let buf = self.buf.clone();
        assert(buf@ =~= self.buf@);
        InputStream { buf, cursor: self.cursor }
    }
}

impl InputStream {
    #[verifier::type_invariant]
    spec fn cursor_within(self) -> bool {
        self.cursor <= self.buf@.len()
    }

    /// Makes a stream of the given bytes.
    pub fn new(data: &[u8]) -> (stream: Self)
        ensures
            stream@ == data@,
    {
        let mut buf: Vec<u8> = Vec::new();
        let mut i: usize = 0;
        while i < data.len()
            invariant
                i <= data.len(),
                buf@ == data@.take(i as int),
            decreases data.len() - i,
        {
            buf.push(data[i]);
            i = i + 1;
            assert(buf@ =~= data@.take(i as int));
        }
        let stream = InputStream { buf, cursor: 0 };
        assert(stream@ =~= data@);
        stream
    }

    /// Fills `buf` with the next bytes, and with zeros where the stream ends, and returns how many
    /// bytes came from the stream.
    pub fn read(&mut self, buf: &mut [u8]) -> (count: usize)
        ensures
            count == read_count(old(self)@, old(buf)@.len()),
            final(buf)@ == read_bytes(old(self)@, old(buf)@.len()),
            final(self)@ == old(self)@.skip(count as int),
    {
        proof {
            use_type_invariant(&*self);
        }
        let left: usize = self.buf.len() - self.cursor;
        let count: usize = if left < buf.len() {
            left
        } else {
            buf.len()
        };
        let mut i: usize = 0;
        while i < count
            invariant
                i <= count <= buf@.len(),
                buf@.len() == old(buf)@.len(),
                *self == *old(self),
                self.cursor + count <= self.buf.len(),
                forall|k: int| 0 <= k < i ==> #[trigger] buf@[k] == self.buf@[self.cursor + k],
            decreases count - i,
        {
            buf[i] = self.buf[self.cursor + i];
            i = i + 1;
        }
        while i < buf.len()
            invariant
                count <= i <= buf@.len(),
                buf@.len() == old(buf)@.len(),
                *self == *old(self),
                forall|k: int| 0 <= k < count ==> #[trigger] buf@[k] == self.buf@[self.cursor + k],
                forall|k: int| count <= k < i ==> #[trigger] buf@[k] == 0,
            decreases buf@.len() - i,
        {
            buf[i] = 0;
            i = i + 1;
        }
        self.cursor = self.cursor + count;
        assert(buf@ =~= read_bytes(old(self)@, old(buf)@.len()));
        assert(self@ =~= old(self)@.skip(count as int));
        count
    }

    /// The next byte, if there is one.
    pub fn read_u8(&mut self) -> (byte: Option<u8>)
        ensures
            match byte {
                Some(b) => {
                    &&& old(self)@.len() > 0
                    &&& b == old(self)@[0]
                    &&& final(self)@ == old(self)@.skip(1)
                },
                None => old(self)@.len() == 0 && final(self)@ == old(self)@,
            },
    {
        let mut buf: [u8; 1] = [0];
        if self.read(&mut buf) == 1 {
            Some(buf[0])
        } else {
            None
        }
    }

    /// The next byte, or zero at the end of the stream.
    pub fn read_u8_zeroing(&mut self) -> (byte: u8)
        ensures
            byte == read_bytes(old(self)@, 1)[0],
            final(self)@ == old(self)@.skip(read_count(old(self)@, 1) as int),
    {
        let mut buf: [u8; 1] = [0];
        self.read(&mut buf);
        buf[0]
    }
}

/// Reading in two parts gives the same bytes as reading at once, and leaves the same bytes.
pub proof fn law_reads_join(left: Seq<u8>, first: nat, second: nat)
    ensures
        ({
            let rest = left.skip(read_count(left, first) as int);
            &&& read_bytes(left, first) + read_bytes(rest, second) == read_bytes(
                left,
                first + second,
            )
            &&& read_count(left, first) + read_count(rest, second) == read_count(
                left,
                first + second,
            )
            &&& rest.skip(read_count(rest, second) as int) == left.skip(
                read_count(left, first + second) as int,
            )
        }),
{
    let rest = left.skip(read_count(left, first) as int);
    assert(read_bytes(left, first) + read_bytes(rest, second) =~= read_bytes(left, first + second));
    assert(rest.skip(read_count(rest, second) as int) =~= left.skip(
        read_count(left, first + second) as int,
    ));
}

/// What is read, followed by what is left, is what there was.
pub proof fn law_read_loses_nothing(left: Seq<u8>, wanted: nat)
    ensures
        read_bytes(left, wanted).take(read_count(left, wanted) as int) + left.skip(
            read_count(left, wanted) as int,
        ) == left,
{
    assert(read_bytes(left, wanted).take(read_count(left, wanted) as int) + left.skip(
        read_count(left, wanted) as int,
    ) =~= left);
}

/// What is read is what is left followed by zeros, as much of it as was asked for; what counts as
/// read are the bytes that were left, and no more than was asked for.
pub proof fn law_read_is_padded_with_zeros(left: Seq<u8>, wanted: nat, i: int)
    ensures
        read_bytes(left, wanted) == (left + Seq::new(wanted, |k: int| 0u8)).take(wanted as int),
        read_bytes(left, wanted).len() == wanted,
        0 <= i < wanted && i < left.len() ==> read_bytes(left, wanted)[i] == left[i],
        left.len() <= i < wanted ==> read_bytes(left, wanted)[i] == 0,
        read_count(left, wanted) <= wanted,
        read_count(left, wanted) <= left.len(),
        read_count(left, wanted) == wanted || read_count(left, wanted) == left.len(),
{
    assert(read_bytes(left, wanted) =~= (left + Seq::new(wanted, |k: int| 0u8)).take(
        wanted as int,
    ));
}

} // verus!

//! The buffers that varints are read from and written to.

use vstd::prelude::*;

verus! {

/// A source of bytes that may lie in several separate pieces of memory: the part of
/// `bytes::Buf` that decoding uses.
///
/// An implementation in ordinary Rust leaves out `unread` and `front_at`. There must be contents
/// all the same for which it keeps to the contracts.
pub trait Buf {
    /// The bytes that are still to be read, in order.
    open spec fn unread(&self) -> Seq<u8> {
        arbitrary()
    }

    /// What `chunk` shows once `n` of them have been read: those of the others that lie next to
    /// each other in memory, from the first one on.
    open spec fn front_at(&self, n: nat) -> Seq<u8> {
        arbitrary()
    }

    /// The number of bytes that are still to be read.
    fn remaining(&self) -> (n: usize)
        ensures
            n == self.unread().len(),
    ;

    /// The bytes at the front: some of the unread ones, and none only where there are none.
    fn chunk(&self) -> (bytes: &[u8])
        ensures
            bytes@ == self.front_at(0),
            bytes@.is_prefix_of(self.unread()),
            bytes@.len() == 0 ==> self.unread().len() == 0,
    ;

    /// Skips `cnt` bytes.
    fn advance(&mut self, cnt: usize)
        requires
            cnt <= old(self).unread().len(),
        ensures
            final(self).unread() == old(self).unread().skip(cnt as int),
            forall|n: nat|
                cnt + n <= old(self).unread().len() ==> #[trigger] final(self).front_at(n) == old(
                    self,
                ).front_at(cnt as nat + n),
    ;

    /// Reads one byte.
    fn get_u8(&mut self) -> (byte: u8)
        requires
            old(self).unread().len() > 0,
        ensures
            byte == old(self).unread()[0],
            final(self).unread() == old(self).unread().skip(1),
            forall|n: nat|
                1 + n <= old(self).unread().len() ==> #[trigger] final(self).front_at(n) == old(
                    self,
                ).front_at(1 + n),
    ;
}

/// `after` is what `before` becomes when `n` bytes have been read from it.
pub open spec fn read_past<B: Buf>(before: B, n: nat, after: B) -> bool {
    &&& after.unread() =~= before.unread().skip(n as int)
    &&& forall|m: nat|
        n + m <= before.unread().len() ==> #[trigger] after.front_at(m) == before.front_at(n + m)
}

/// Reading some bytes and then some more is reading all of them.
pub proof fn lemma_read_past<B: Buf>(before: B, m: nat, between: B, n: nat, after: B)
    requires
        m + n <= before.unread().len(),
        read_past(before, m, between),
        read_past(between, n, after),
    ensures
        read_past(before, m + n, after),
{
    assert forall|k: nat| m + n + k <= before.unread().len() implies #[trigger] after.front_at(k)
        == before.front_at(m + n + k) by {
        assert(between.front_at(n + k) == before.front_at(m + (n + k)));
    }
}

/// Reading `n` bytes takes exactly these away: what is left starts with the byte behind them, and
/// lies in memory as it did.
pub proof fn lemma_read_past_skip<B: Buf>(before: B, n: nat, after: B)
    requires
        n <= before.unread().len(),
        read_past(before, n, after),
    ensures
        after.unread().len() == before.unread().len() - n,
        after.unread() == before.unread().skip(n as int),
        before.unread() == before.unread().take(n as int) + after.unread(),
        forall|m: nat|
            n + m <= before.unread().len() ==> #[trigger] after.front_at(m) == before.front_at(
                n + m,
            ),
{
}

/// A place to append bytes to: the part of `bytes::BufMut` that encoding uses.
///
/// An implementation in ordinary Rust leaves out `written` and `room`. There must be contents all
/// the same for which it keeps to the contracts.
pub trait BufMut {
    /// The bytes that have been written, in order.
    open spec fn written(&self) -> Seq<u8> {
        arbitrary()
    }

    /// The number of bytes that can still be written.
    open spec fn room(&self) -> nat {
        arbitrary()
    }

    /// The number of bytes that can still be written.
    fn remaining_mut(&self) -> (n: usize)
        ensures
            n == self.room(),
    ;

    /// Appends one byte.
    fn put_u8(&mut self, byte: u8)
        requires
            old(self).room() > 0,
        ensures
            final(self).written() == old(self).written().push(byte),
            final(self).room() == old(self).room() - 1,
    ;
}

/// `<&[u8] as bytes::Buf>::remaining` is the length of the slice.
#[verifier::external_body]
fn slice_remaining(buf: &&[u8]) -> (n: usize)
    ensures
        n == buf@.len(),
{
    bytes::Buf::remaining(buf)
}

/// `<&[u8] as bytes::Buf>::chunk` is the whole slice.
#[verifier::external_body]
fn slice_chunk<'a>(buf: &'a &[u8]) -> (chunk: &'a [u8])
    ensures
        chunk@ == buf@,
{
    bytes::Buf::chunk(buf)
}

/// `<&[u8] as bytes::Buf>::advance` drops the first `cnt` bytes of the slice. It panics where
/// the slice is shorter than that.
#[verifier::external_body]
fn slice_advance(buf: &mut &[u8], cnt: usize)
    requires
        cnt <= old(buf)@.len(),
    ensures
        final(buf)@ == old(buf)@.skip(cnt as int),
{
    bytes::Buf::advance(buf, cnt)
}

/// `<&[u8] as bytes::Buf>::get_u8` takes the first byte off the slice. It panics where the
/// slice is empty.
#[verifier::external_body]
fn slice_get_u8(buf: &mut &[u8]) -> (byte: u8)
    requires
        old(buf)@.len() > 0,
    ensures
        byte == old(buf)@[0],
        final(buf)@ == old(buf)@.skip(1),
{
    bytes::Buf::get_u8(buf)
}

/// A slice is read from its start, and shows all that is left of it.
impl Buf for &[u8] {
    open spec fn unread(&self) -> Seq<u8> {
        self@
    }

    open spec fn front_at(&self, n: nat) -> Seq<u8> {
        self@.skip(n as int)
    }

    fn remaining(&self) -> (n: usize)
        ensures
            n == self@.len(),
    {
        slice_remaining(self)
    }

    fn chunk(&self) -> (bytes: &[u8])
        ensures
            bytes@ == self@,
    {
        slice_chunk(self)
    }

    fn advance(&mut self, cnt: usize)
        ensures
            final(self)@ == old(self)@.skip(cnt as int),
    {
        slice_advance(self, cnt)
    }

    fn get_u8(&mut self) -> (byte: u8)
        ensures
            byte == old(self)@[0],
            final(self)@ == old(self)@.skip(1),
    {
        slice_get_u8(self)
    }
}

/// `bytes::buf::Chain`: two buffers, of which the second is read after the first.
#[verifier::external_type_specification]
#[verifier::external_body]
#[verifier::reject_recursive_types(T)]
#[verifier::reject_recursive_types(U)]
pub struct ExChain<T, U>(bytes::buf::Chain<T, U>);

/// What is left to read of the first buffer of a chain.
pub uninterp spec fn chain_first(chain: bytes::buf::Chain<&[u8], &[u8]>) -> Seq<u8>;

/// What is left to read of the second buffer of a chain.
pub uninterp spec fn chain_last(chain: bytes::buf::Chain<&[u8], &[u8]>) -> Seq<u8>;

/// `<bytes::buf::Chain as bytes::Buf>::remaining` adds up what is left of the two buffers. It
/// saturates, but no slice of bytes is longer than `isize::MAX`, so two of them never get there.
#[verifier::external_body]
fn chain_remaining(chain: &bytes::buf::Chain<&[u8], &[u8]>) -> (n: usize)
    ensures
        n == chain_first(*chain).len() + chain_last(*chain).len(),
{
    bytes::Buf::remaining(chain)
}

/// `<bytes::buf::Chain as bytes::Buf>::chunk` shows the first buffer, and the second once the
/// first is used up.
#[verifier::external_body]
fn chain_chunk<'a>(chain: &'a bytes::buf::Chain<&[u8], &[u8]>) -> (chunk: &'a [u8])
    ensures
        chunk@ == if chain_first(*chain).len() > 0 {
            chain_first(*chain)
        } else {
            chain_last(*chain)
        },
{
    bytes::Buf::chunk(chain)
}

/// `<bytes::buf::Chain as bytes::Buf>::advance` drops `cnt` bytes from the first buffer, and
/// what it is short of from the second. It panics where both together are shorter than that.
#[verifier::external_body]
fn chain_advance(chain: &mut bytes::buf::Chain<&[u8], &[u8]>, cnt: usize)
    requires
        cnt <= chain_first(*old(chain)).len() + chain_last(*old(chain)).len(),
    ensures
        cnt <= chain_first(*old(chain)).len() ==> {
            &&& chain_first(*final(chain)) == chain_first(*old(chain)).skip(cnt as int)
            &&& chain_last(*final(chain)) == chain_last(*old(chain))
        },
        cnt > chain_first(*old(chain)).len() ==> {
            &&& chain_first(*final(chain)) == Seq::<u8>::empty()
            &&& chain_last(*final(chain)) == chain_last(*old(chain)).skip(
                cnt - chain_first(*old(chain)).len(),
            )
        },
{
    bytes::Buf::advance(chain, cnt)
}

/// `<bytes::buf::Chain as bytes::Buf>::get_u8` takes the next byte off the first buffer, and off
/// the second once the first is used up. It panics where both are empty.
#[verifier::external_body]
fn chain_get_u8(chain: &mut bytes::buf::Chain<&[u8], &[u8]>) -> (byte: u8)
    requires
        chain_first(*old(chain)).len() + chain_last(*old(chain)).len() > 0,
    ensures
        chain_first(*old(chain)).len() > 0 ==> {
            &&& byte == chain_first(*old(chain))[0]
            &&& chain_first(*final(chain)) == chain_first(*old(chain)).skip(1)
            &&& chain_last(*final(chain)) == chain_last(*old(chain))
        },
        chain_first(*old(chain)).len() == 0 ==> {
            &&& byte == chain_last(*old(chain))[0]
            &&& chain_first(*final(chain)) == Seq::<u8>::empty()
            &&& chain_last(*final(chain)) == chain_last(*old(chain)).skip(1)
        },
{
    bytes::Buf::get_u8(chain)
}

/// A chain of two slices is read across their border, but shows only one of them at a time.
impl Buf for bytes::buf::Chain<&[u8], &[u8]> {
    open spec fn unread(&self) -> Seq<u8> {
        chain_first(*self) + chain_last(*self)
    }

    open spec fn front_at(&self, n: nat) -> Seq<u8> {
        if n < chain_first(*self).len() {
            chain_first(*self).skip(n as int)
        } else {
            chain_last(*self).skip(n - chain_first(*self).len())
        }
    }

    fn remaining(&self) -> (n: usize)
        ensures
            n == chain_first(*self).len() + chain_last(*self).len(),
    {
        chain_remaining(self)
    }

    fn chunk(&self) -> (bytes: &[u8])
        ensures
            chain_first(*self).len() > 0 ==> bytes@ == chain_first(*self),
            chain_first(*self).len() == 0 ==> bytes@ == chain_last(*self),
    {
        assert(chain_first(*self).len() == 0 ==> self.unread() == chain_last(*self));
        chain_chunk(self)
    }

    fn advance(&mut self, cnt: usize)
        ensures
            chain_first(*final(self)) + chain_last(*final(self)) == (chain_first(*old(self))
                + chain_last(*old(self))).skip(cnt as int),
            cnt <= chain_first(*old(self)).len() ==> chain_last(*final(self)) == chain_last(
                *old(self),
            ),
            cnt >= chain_first(*old(self)).len() ==> chain_first(*final(self)).len() == 0,
    {
        chain_advance(self, cnt)
    }

    fn get_u8(&mut self) -> (byte: u8)
        ensures
            byte == (chain_first(*old(self)) + chain_last(*old(self)))[0],
            chain_first(*final(self)) + chain_last(*final(self)) == (chain_first(*old(self))
                + chain_last(*old(self))).skip(1),
            1 <= chain_first(*old(self)).len() ==> chain_last(*final(self)) == chain_last(
                *old(self),
            ),
            1 >= chain_first(*old(self)).len() ==> chain_first(*final(self)).len() == 0,
    {
        chain_get_u8(self)
    }
}

/// `<Vec<u8> as bytes::BufMut>::remaining_mut` is what is missing to `isize::MAX` bytes, the
/// longest that a vector of bytes can be.
#[verifier::external_body]
fn vec_remaining_mut(buf: &Vec<u8>) -> (n: usize)
    ensures
        n == isize::MAX - buf@.len(),
{
    bytes::BufMut::remaining_mut(buf)
}

/// `<Vec<u8> as bytes::BufMut>::put_u8` appends the byte to the vector. It panics where the
/// vector already has `isize::MAX` bytes. That there is memory left for it is taken for granted,
/// as it is wherever a vector grows.
#[verifier::external_body]
fn vec_put_u8(buf: &mut Vec<u8>, byte: u8)
    requires
        old(buf)@.len() < isize::MAX,
    ensures
        final(buf)@ == old(buf)@.push(byte),
{
    bytes::BufMut::put_u8(buf, byte)
}

/// A vector grows with what is written to it.
impl BufMut for Vec<u8> {
    open spec fn written(&self) -> Seq<u8> {
        self@
    }

    open spec fn room(&self) -> nat {
        if self@.len() <= isize::MAX {
            (isize::MAX - self@.len()) as nat
        } else {
            0
        }
    }

    fn remaining_mut(&self) -> (n: usize)
        ensures
            n == isize::MAX - self@.len(),
    {
        vec_remaining_mut(self)
    }

    fn put_u8(&mut self, byte: u8)
        ensures
            final(self)@ == old(self)@.push(byte),
    {
        vec_put_u8(self, byte)
    }
}

/// What is read from a slice is the slice itself, from its start to its end, however long it is.
/// It lies in one piece.
pub proof fn lemma_slice_contents(slice: &[u8])
    ensures
        slice.unread() == slice@,
        slice.front_at(0) == slice@,
        forall|n: nat|
            n <= slice@.len() ==> #[trigger] slice.front_at(n) == slice@.subrange(
                n as int,
                slice@.len() as int,
            ),
{
    assert(slice@.skip(0) == slice@);
}

/// What is read from a chain is its first slice and then its second, however long they are. Each
/// of the two lies in one piece.
pub proof fn lemma_chain_contents(chain: bytes::buf::Chain<&[u8], &[u8]>)
    ensures
        chain.unread().len() == chain_first(chain).len() + chain_last(chain).len(),
        chain.unread() == chain_first(chain) + chain_last(chain),
        forall|n: nat|
            n < chain_first(chain).len() ==> #[trigger] chain.front_at(n) == chain_first(
                chain,
            ).subrange(n as int, chain_first(chain).len() as int),
        forall|n: nat|
            n <= chain_last(chain).len() ==> #[trigger] chain.front_at(chain_first(chain).len() + n)
                == chain_last(chain).subrange(n as int, chain_last(chain).len() as int),
{
}

/// What has been written to a vector is what the vector holds, and it can grow to `isize::MAX`
/// bytes.
pub proof fn lemma_vec_contents(vec: Vec<u8>)
    ensures
        vec.written() == vec@,
        vec@.len() <= isize::MAX ==> vec.room() + vec@.len() == isize::MAX,
{
}

} // verus!

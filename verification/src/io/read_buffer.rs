use vstd::prelude::*;

verus! {

/// Errors of `std::io`, carried through unchanged.
#[verifier::external_type_specification]
#[verifier::external_body]
pub struct ExIoError(std::io::Error);

/// The part of `buf` from `start` on, borrowed mutably (`&mut buf[start..]`): it holds what
/// `buf` held there, and whatever is written through it ends up in `buf` after the first
/// `start` bytes, which stay as they were. A slice keeps its length.
#[verifier::external_body]
fn slice_tail_mut(buf: &mut [u8], start: usize) -> (r: &mut [u8])
    requires
        start <= old(buf)@.len(),
    ensures
        r@ == old(buf)@.skip(start as int),
        final(r)@.len() == r@.len(),
        final(buf)@ == old(buf)@.take(start as int) + final(r)@,
{
    &mut buf[start..]
}

/// `std::io::Read::read` on `reader`: on success the number of bytes read, which the
/// trait documents as at most `buf.len()`. What was read lands in `buf`, whose length does
/// not change; which bytes those are is not stated.
#[verifier::external_body]
fn read_into<T: std::io::Read>(reader: &mut T, buf: &mut [u8]) -> (r: Result<
    usize,
    std::io::Error,
>)
    ensures
        final(buf)@.len() == old(buf)@.len(),
        r matches Ok(n) ==> n <= old(buf)@.len(),
{
    reader.read(buf)
}

/// Whether `error` is of kind `std::io::ErrorKind::WouldBlock`; nothing is stated of the
/// kind an error has.
#[verifier::external_body]
pub(crate) fn is_would_block(error: &std::io::Error) -> bool {
    error.kind() == std::io::ErrorKind::WouldBlock
}

/// The error of a request for more bytes than the buffer can hold.
#[verifier::external_body]
fn length_over_capacity_error(length: usize, capacity: usize) -> std::io::Error {
    std::io::Error::new(
        std::io::ErrorKind::InvalidData,
        format!("Requested length {} is greater than capacity {}", length, capacity),
    )
}

/// The error of a write that does not fit in the buffer.
#[verifier::external_body]
fn out_of_memory_error() -> std::io::Error {
    std::io::Error::from(std::io::ErrorKind::OutOfMemory)
}

/// A fixed-size byte buffer of three consecutive parts: bytes already read, bytes received
/// but not read yet (the unread part), and free room (the unused part). Unread bytes can be
/// moved to the front to make room at the back.
pub struct ReadBuffer {
    unread_start: usize,
    unused_start: usize,
    capacity: usize,
    buffer: Vec<u8>,
}

impl ReadBuffer {
    /// The parts are in order and the buffer holds exactly `capacity` bytes.
    pub closed spec fn wf(&self) -> bool {
        &&& self.unread_start <= self.unused_start <= self.capacity
        &&& self.buffer@.len() == self.capacity
    }

    /// The bytes received and not read yet.
    pub closed spec fn unread_data(&self) -> Seq<u8> {
        self.buffer@.subrange(self.unread_start as int, self.unused_start as int)
    }

    /// Number of free bytes at the back.
    pub closed spec fn unused_len(&self) -> int {
        self.capacity - self.unused_start
    }

    /// The free room at the back, as it stands.
    pub closed spec fn unused_data(&self) -> Seq<u8> {
        self.buffer@.skip(self.unused_start as int)
    }

    pub closed spec fn spec_capacity(&self) -> usize {
        self.capacity
    }

    pub closed spec fn spec_unread_start(&self) -> usize {
        self.unread_start
    }

    pub closed spec fn spec_unused_start(&self) -> usize {
        self.unused_start
    }

    /// An empty buffer of `capacity` bytes.
    pub fn new(capacity: usize) -> (r: ReadBuffer)
        ensures
            r.wf(),
            r.spec_capacity() == capacity,
            r.unread_data() == Seq::<u8>::empty(),
            r.unused_len() == capacity,
    {
        let mut buffer: Vec<u8> = Vec::new();
        while buffer.len() < capacity
            invariant
                buffer@.len() <= capacity,
            decreases capacity - buffer@.len(),
        {
            buffer.push(0);
        }
        let r = ReadBuffer { unread_start: 0, unused_start: 0, capacity, buffer };
        assert(r.unread_data() =~= Seq::<u8>::empty());
        r
    }

    /// Forgets all unread bytes.
    pub fn clear(&mut self)
        requires
            old(self).wf(),
        ensures
            final(self).wf(),
            final(self).spec_capacity() == old(self).spec_capacity(),
            final(self).unread_data() == Seq::<u8>::empty(),
            final(self).unused_len() == old(self).spec_capacity(),
    {
        self.unread_start = 0;
        self.unused_start = 0;
        assert(self.unread_data() =~= Seq::<u8>::empty());
    }

    /// Marks the first `num` unread bytes as read.
    pub fn consume(&mut self, num: usize)
        requires
            old(self).wf(),
            num <= old(self).unread_data().len(),
        ensures
            final(self).wf(),
            final(self).spec_capacity() == old(self).spec_capacity(),
            final(self).unread_data() == old(self).unread_data().skip(num as int),
            final(self).unused_len() == old(self).unused_len(),
    {
        self.unread_start = self.unread_start + num;
        assert(self.unread_data() =~= old(self).unread_data().skip(num as int));
    }

    /// The unread bytes.
    pub fn get_unread(&self) -> (r: &[u8])
        requires
            self.wf(),
        ensures
            r@ == self.unread_data(),
    {
        let all = self.buffer.as_slice();
        &all[self.unread_start..self.unused_start]
    }

    /// The free room at the back, to be filled; `added_unused` then counts what was put
    /// there as unread.
    pub fn get_unused_mut(&mut self) -> (r: &mut [u8])
        requires
            old(self).wf(),
        ensures
            r@.len() == old(self).unused_len(),
            final(r)@.len() == r@.len(),
            final(self).wf(),
            final(self).spec_capacity() == old(self).spec_capacity(),
            final(self).spec_unread_start() == old(self).spec_unread_start(),
            final(self).spec_unused_start() == old(self).spec_unused_start(),
            final(self).unread_data() == old(self).unread_data(),
            final(self).unused_data() == final(r)@,
    {
        let start = self.unused_start;
        let ghost before = self.buffer@;
        let all = self.buffer.as_mut_slice();
        slice_tail_mut(all, start)
    }

    /// Counts the first `num` bytes of the free room as unread.
    pub fn added_unused(&mut self, num: usize)
        requires
            old(self).wf(),
            num <= old(self).unused_len(),
        ensures
            final(self).wf(),
            final(self).spec_capacity() == old(self).spec_capacity(),
            final(self).spec_unread_start() == old(self).spec_unread_start(),
            final(self).spec_unused_start() == old(self).spec_unused_start() + num,
            final(self).unread_data() == old(self).unread_data() + old(self).unused_data().take(
                num as int,
            ),
    {
        self.unused_start = self.unused_start + num;
        assert(self.unread_data() =~= old(self).unread_data() + old(self).buffer@.subrange(
            old(self).unused_start as int,
            old(self).unused_start + num,
        ));
    }

    /// Number of unread bytes.
    pub fn unread(&self) -> (r: usize)
        requires
            self.wf(),
        ensures
            r == self.unread_data().len(),
    {
        self.unused_start - self.unread_start
    }

    /// Number of free bytes at the back.
    pub fn unused(&self) -> (r: usize)
        requires
            self.wf(),
        ensures
            r == self.unused_len(),
    {
        self.capacity - self.unused_start
    }

    /// Moves the unread bytes to the front of the buffer, so that all free room is at the
    /// back.
    pub fn shift_left(&mut self)
        requires
            old(self).wf(),
        ensures
            final(self).wf(),
            final(self).spec_capacity() == old(self).spec_capacity(),
            final(self).spec_unread_start() == 0,
            final(self).unread_data() == old(self).unread_data(),
            final(self).unused_len() == old(self).spec_capacity() - old(self).unread_data().len(),
    {
        let size = self.unused_start - self.unread_start;
        let from = self.unread_start;
        let ghost data = self.unread_data();
        let ghost before = self.buffer@;
        let mut i: usize = 0;
        while i < size
            invariant
                self.buffer@.len() == before.len(),
                before.len() == self.capacity,
                from + size <= self.capacity,
                i <= size,
                data == before.subrange(from as int, from + size),
                forall|j: int| 0 <= j < i ==> #[trigger] self.buffer@[j] == data[j],
                forall|j: int| i <= j < before.len() ==> #[trigger] self.buffer@[j] == before[j],
            decreases size - i,
        {
            let b = self.buffer[from + i];
            self.buffer.set(i, b);
            i = i + 1;
        }
        self.unread_start = 0;
        self.unused_start = size;
        assert(self.unread_data() =~= data);
    }

    /// Appends `data` to the unread bytes, moving the unread bytes to the front first when
    /// the free room at the back is too small. Gives the error of kind `OutOfMemory`, with
    /// the unread bytes as they were, when `data` does not fit even then.
    pub fn write(&mut self, data: &[u8]) -> (r: Result<usize, std::io::Error>)
        requires
            old(self).wf(),
        ensures
            final(self).wf(),
            final(self).spec_capacity() == old(self).spec_capacity(),
            r is Ok <==> old(self).unread_data().len() + data@.len() <= old(self).spec_capacity(),
            final(self).unread_data() == (if r is Ok {
                old(self).unread_data() + data@
            } else {
                old(self).unread_data()
            }),
            r matches Ok(n) ==> n == data@.len(),
    {
        let length = data.len();
        if length > self.capacity - self.unused_start {
            self.shift_left();
            if length > self.capacity - self.unused_start {
                return Err(out_of_memory_error());
            }
        }
        let start = self.unused_start;
        let ghost before = self.buffer@;
        let ghost mid = *self;
        assert(mid.unread_data() == old(self).unread_data());
        let mut i: usize = 0;
        while i < length
            invariant
                self.wf(),
                self.unread_start == mid.unread_start,
                self.unused_start == start,
                self.capacity == old(self).capacity,
                start + length <= self.capacity,
                before == mid.buffer@,
                mid.unread_data() == old(self).unread_data(),
                mid.unused_start == start,
                mid.wf(),
                i <= length,
                length == data@.len(),
                forall|j: int| 0 <= j < start ==> #[trigger] self.buffer@[j] == before[j],
                forall|j: int| 0 <= j < i ==> self.buffer@[start + j] == #[trigger] data@[j],
            decreases length - i,
        {
            self.buffer.set(start + i, data[i]);
            i = i + 1;
        }
        assert(self.unused_data().take(length as int) =~= data@);
        assert(self.unread_data() =~= mid.unread_data());
        self.added_unused(length);
        assert(self.unread_data() =~= old(self).unread_data() + data@);
        Ok(length)
    }

    /// Copies unread bytes into `buf`, as many as fit, and marks them as read. Gives
    /// how many were copied.
    pub fn read(&mut self, buf: &mut [u8]) -> (r: usize)
        requires
            old(self).wf(),
        ensures
            final(self).wf(),
            r == (if old(buf)@.len() < old(self).unread_data().len() {
                old(buf)@.len()
            } else {
                old(self).unread_data().len()
            }),
            final(buf)@.len() == old(buf)@.len(),
            final(buf)@.take(r as int) == old(self).unread_data().take(r as int),
            final(buf)@.skip(r as int) == old(buf)@.skip(r as int),
            final(self).spec_capacity() == old(self).spec_capacity(),
            final(self).unread_data() == old(self).unread_data().skip(r as int),
    {
        let unread = self.get_unread();
        let length = if buf.len() < unread.len() {
            buf.len()
        } else {
            unread.len()
        };
        let mut i: usize = 0;
        while i < length
            invariant
                i <= length,
                length <= unread@.len(),
                length <= buf@.len(),
                buf@.len() == old(buf)@.len(),
                forall|j: int| 0 <= j < i ==> #[trigger] buf@[j] == unread@[j],
                forall|j: int| i <= j < buf@.len() ==> #[trigger] buf@[j] == old(buf)@[j],
            decreases length - i,
        {
            buf[i] = unread[i];
            i = i + 1;
        }
        assert(buf@.take(length as int) =~= unread@.take(length as int));
        assert(buf@.skip(length as int) =~= old(buf)@.skip(length as int));
        self.consume(length);
        length
    }

    /// Reads from `reader` into the free room and counts what was read as unread. Gives
    /// the number of bytes read, or the reader's error.
    pub fn read_from<T: std::io::Read>(&mut self, reader: &mut T) -> (r: Result<
        usize,
        std::io::Error,
    >)
        requires
            old(self).wf(),
        ensures
            final(self).wf(),
            final(self).spec_capacity() == old(self).spec_capacity(),
            final(self).spec_unread_start() == old(self).spec_unread_start(),
            match r {
                Ok(n) => n <= old(self).unused_len() && final(self).spec_unused_start()
                    == old(self).spec_unused_start() + n && final(self).unread_data()
                    .take(old(self).unread_data().len() as int) == old(self).unread_data(),
                Err(_) => final(self).spec_unused_start() == old(self).spec_unused_start()
                    && final(self).unread_data() == old(self).unread_data(),
            },
    {
        let unused = self.get_unused_mut();
        let result = read_into(reader, unused);
        match result {
            Ok(read) => {
                let ghost mid = *self;
                self.added_unused(read);
                assert(self.unread_data().take(mid.unread_data().len() as int) =~= mid.unread_data());
                Ok(read)
            },
            Err(e) => Err(e),
        }
    }

    /// What a read of `read` for `need` more bytes comes to: whether as many were read; a
    /// reader that would block (`would_block`) counts as having read nothing; another error
    /// is passed on.
    pub fn read_outcome(read: Result<usize, std::io::Error>, would_block: bool, need: usize) -> (r:
        Result<bool, std::io::Error>)
        ensures
            match read {
                Ok(n) => r == Ok::<bool, std::io::Error>(n >= need),
                Err(e) => if would_block {
                    r == Ok::<bool, std::io::Error>(false)
                } else {
                    r == Err::<bool, std::io::Error>(e)
                },
            },
    {
        match read {
            Ok(n) => Ok(n >= need),
            Err(e) => {
                if would_block {
                    Ok(false)
                } else {
                    Err(e)
                }
            },
        }
    }

    /// Makes sure that at least `length` bytes are unread, reading from `reader` once if
    /// there are fewer (after moving the unread bytes to the front when the free room
    /// is too small). Gives whether `length` bytes are unread afterwards; a reader that
    /// would block counts as having read nothing. Fails when `length` exceeds the
    /// capacity, or with the reader's other errors. The reader is left alone when enough
    /// bytes are unread already or `length` exceeds the capacity.
    pub fn read_at_least_from<T: std::io::Read>(&mut self, length: usize, reader: &mut T) -> (r:
        Result<bool, std::io::Error>)
        requires
            old(self).wf(),
        ensures
            final(self).wf(),
            final(self).spec_capacity() == old(self).spec_capacity(),
            final(self).unread_data().take(old(self).unread_data().len() as int) == old(self).unread_data(),
            old(self).unread_data().len() >= length ==> r == Ok::<bool, std::io::Error>(true)
                && *final(self) == *old(self) && *final(reader) == *old(reader),
            old(self).unread_data().len() < length && length > old(self).spec_capacity() ==> r
                is Err && *final(self) == *old(self) && *final(reader) == *old(reader),
            r == Ok::<bool, std::io::Error>(true) ==> final(self).unread_data().len() >= length,
            r == Ok::<bool, std::io::Error>(false) ==> final(self).unread_data().len() < length,
            old(self).unread_data().len() < length <= old(self).spec_capacity() && r is Err
                ==> final(self).unread_data() == old(self).unread_data(),
            old(self).unread_data().is_prefix_of(final(self).unread_data()),
            old(self).unread_data().len() < length <= old(self).spec_capacity() ==> final(
                self).spec_unread_start() == if length - old(self).unread_data().len() > old(
                self).unused_len() {
                0
            } else {
                old(self).spec_unread_start()
            },
    {
        let current_unread = self.unread();
        if current_unread >= length {
            return Ok(true);
        }
        if length > self.capacity {
            return Err(length_over_capacity_error(length, self.capacity));
        }
        let need_to_read = length - current_unread;
        if need_to_read > self.unused() {
            self.shift_left();
        }
        let read = self.read_from(reader);
        let would_block = match &read {
            Ok(_) => false,
            Err(error) => is_would_block(error),
        };
        Self::read_outcome(read, would_block, need_to_read)
    }

    /// Puts `data` in front of the unread bytes, so that it is read first. Room is made by
    /// moving the unread bytes back, or, where the buffer is too small for both, by
    /// growing it to hold exactly both.
    pub fn prepend_unread(&mut self, data: &[u8])
        requires
            old(self).wf(),
            data@.len() + old(self).unread_data().len() <= usize::MAX,
        ensures
            final(self).wf(),
            final(self).unread_data() == data@ + old(self).unread_data(),
            final(self).spec_capacity() == (if data@.len() + old(self).unread_data().len()
                <= old(self).spec_capacity() {
                old(self).spec_capacity() as int
            } else {
                (data@.len() + old(self).unread_data().len()) as int
            }),
    {
        let len = data.len();
        let size = self.unused_start - self.unread_start;
        let ghost old_unread = self.unread_data();
        if len > self.unread_start {
            if len + size <= self.capacity {
                self.place_unread_at(len);
            } else {
                let new_capacity = len + size;
                let mut fresh: Vec<u8> = Vec::new();
                while fresh.len() < len
                    invariant
                        fresh@.len() <= len,
                    decreases len - fresh@.len(),
                {
                    fresh.push(0);
                }
                let mut i: usize = self.unread_start;
                while i < self.unused_start
                    invariant
                        self.wf(),
                        self.unread_start <= i <= self.unused_start,
                        self.unread_data() == old_unread,
                        fresh@.len() == len + (i - self.unread_start),
                        forall|j: int|
                            0 <= j < i - self.unread_start ==> fresh@[len + j]
                                == #[trigger] old_unread[j],
                    decreases self.unused_start - i,
                {
                    fresh.push(self.buffer[i]);
                    i = i + 1;
                }
                self.buffer = fresh;
                self.capacity = new_capacity;
                self.unread_start = len;
                self.unused_start = new_capacity;
                assert(self.unread_data() =~= old_unread);
            }
        }
        let ghost cap = self.capacity;
        assert(cap == (if len + size <= old(self).capacity {
            old(self).capacity as int
        } else {
            len + size
        }));
        let start = self.unread_start - len;
        let mut i: usize = 0;
        while i < len
            invariant
                self.wf(),
                start + len == self.unread_start,
                self.unread_data() == old_unread,
                self.capacity == cap,
                i <= len,
                len == data@.len(),
                forall|j: int| 0 <= j < i ==> self.buffer@[start + j] == #[trigger] data@[j],
            decreases len - i,
        {
            let ghost before = self.buffer@;
            self.buffer.set(start + i, data[i]);
            assert(self.unread_data() =~= before.subrange(
                self.unread_start as int,
                self.unused_start as int,
            ));
            i = i + 1;
        }
        self.unread_start = start;
        assert(self.unread_data() =~= data@ + old_unread);
    }

    /// Moves the unread bytes so that they start at `new_start`.
    fn place_unread_at(&mut self, new_start: usize)
        requires
            old(self).wf(),
            new_start >= old(self).spec_unread_start(),
            new_start + old(self).unread_data().len() <= old(self).spec_capacity(),
        ensures
            final(self).wf(),
            final(self).spec_capacity() == old(self).spec_capacity(),
            final(self).spec_unread_start() == new_start,
            final(self).unread_data() == old(self).unread_data(),
    {
        let size = self.unused_start - self.unread_start;
        let from = self.unread_start;
        let ghost data = self.unread_data();
        let ghost before = self.buffer@;
        let mut i: usize = size;
        while i > 0
            invariant
                self.buffer@.len() == before.len(),
                before.len() == self.capacity,
                from <= new_start,
                new_start + size <= self.capacity,
                i <= size,
                data == before.subrange(from as int, from + size),
                forall|j: int| i <= j < size ==> self.buffer@[new_start + j] == #[trigger] data[j],
                forall|j: int|
                    0 <= j < new_start + i ==> #[trigger] self.buffer@[j] == before[j],
            decreases i,
        {
            i = i - 1;
            let b = self.buffer[from + i];
            self.buffer.set(new_start + i, b);
        }
        self.unread_start = new_start;
        self.unused_start = new_start + size;
        assert(self.unread_data() =~= data);
    }
}

/// Putting bytes in front of the unread bytes and then marking that many as read leaves the
/// unread bytes as they were.
pub proof fn lemma_prepend_then_consume(data: Seq<u8>, unread: Seq<u8>)
    ensures
        (data + unread).skip(data.len() as int) == unread,
{
    assert((data + unread).skip(data.len() as int) =~= unread);
}

/// Adding bytes and reading them back in the same order: what `write` appends is what
/// `read` hands out once the bytes before it are read.
pub proof fn lemma_write_then_read(unread: Seq<u8>, data: Seq<u8>)
    ensures
        (unread + data).skip(unread.len() as int) == data,
        (unread + data).take(unread.len() as int) == unread,
{
    assert((unread + data).skip(unread.len() as int) =~= data);
    assert((unread + data).take(unread.len() as int) =~= unread);
}

} // verus!

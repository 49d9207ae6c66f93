//! An in-memory device: the whole backing store is a byte vector.  Its
//! seeks and reads never fail, which makes it the reference implementation
//! of the [`Device`] capability and the device the tests run on.

use vstd::prelude::*;

use crate::model::{read_into, read_len};
use crate::{Device, DeviceError};

verus! {

/// A device backed by a byte vector held in memory.
pub struct RamDevice {
    data: Vec<u8>,
    cursor: usize,
}

impl RamDevice {
    /// Wraps a byte vector; the cursor starts at the front.
    pub fn new(data: Vec<u8>) -> (r: RamDevice)
        ensures
            r.contents() == data@,
            r.pos() == 0,
    {
        RamDevice { data, cursor: 0 }
    }
}

impl Device for RamDevice {
    closed spec fn contents(&self) -> Seq<u8> {
        self.data@
    }

    closed spec fn pos(&self) -> int {
        self.cursor as int
    }

    proof fn lemma_contents_bounded(&self) {
        assert(vstd::std_specs::vec::spec_vec_len(&self.data) == self.data@.len());
    }

    fn seek(&mut self, position: u64) -> (r: Result<(), DeviceError>) {
        if position > usize::MAX as u64 {
            // Beyond every possible store: park the cursor at the end so
            // that reads return nothing.  No stream this long can exist in
            // memory, so the seek itself cannot be honoured exactly.
            self.cursor = self.data.len();
            if self.data.len() as u64 == position {
                Ok(())
            } else {
                Err(DeviceError)
            }
        } else {
            self.cursor = position as usize;
            Ok(())
        }
    }

    fn read(&mut self, buffer: &mut Vec<u8>) -> (r: Result<usize, DeviceError>) {
        let remaining = if self.cursor < self.data.len() {
            self.data.len() - self.cursor
        } else {
            0
        };
        let n = if buffer.len() < remaining {
            buffer.len()
        } else {
            remaining
        };
        let mut i: usize = 0;
        while i < n
            invariant
                i <= n,
                n as int == read_len(self.data@.len() as int, self.cursor as int, buffer@.len() as int),
                self.cursor + n <= self.data@.len() || n == 0,
                buffer@.len() == old(buffer)@.len(),
                self == old(self),
                forall|j: int|
                    0 <= j < buffer@.len() ==> buffer@[j] == (if j < i {
                        self.data@[self.cursor + j]
                    } else {
                        old(buffer)@[j]
                    }),
            decreases n - i,
        {
            let dlen = self.data.len();
            assert(self.cursor + i < dlen);
            let b = self.data[self.cursor + i];
            buffer[i] = b;
            i = i + 1;
        }
        proof {
            assert(buffer@ =~= read_into(old(self).contents(), old(self).pos(), old(buffer)@));
        }
        self.cursor = self.cursor + n;
        Ok(n)
    }
}

} // verus!

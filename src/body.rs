use vstd::prelude::*;

use crate::errno::Errno;

verus! {

/// `n` zero bytes.
pub open spec fn zeros(n: nat) -> Seq<u8> {
    Seq::new(n, |i: int| 0u8)
}

/// `b` extended with zero bytes to length `n`; unchanged when already that long.
pub open spec fn grow_to(b: Seq<u8>, n: nat) -> Seq<u8> {
    if n <= b.len() {
        b
    } else {
        b + zeros((n - b.len()) as nat)
    }
}

/// `b` with `data` stored at `pos`, zero-filled first up to `pos + data.len()`.
pub open spec fn write_at(b: Seq<u8>, data: Seq<u8>, pos: nat) -> Seq<u8> {
    let g = grow_to(b, pos + data.len());
    g.subrange(0, pos as int) + data + g.subrange((pos + data.len()) as int, g.len() as int)
}

/// `b` cut or zero-extended to exactly `n` bytes.
pub open spec fn resized(b: Seq<u8>, n: nat) -> Seq<u8> {
    if n <= b.len() {
        b.subrange(0, n as int)
    } else {
        grow_to(b, n)
    }
}

/// The bytes that a read from `pos` delivers: the tail of `b` from `pos` on.
pub open spec fn tail_from(b: Seq<u8>, pos: nat) -> Seq<u8> {
    if pos <= b.len() {
        b.subrange(pos as int, b.len() as int)
    } else {
        Seq::empty()
    }
}

/// The body of a regular file: bytes held inline, or a reference to a host
/// URL whose length is fetched once and then kept.
pub enum RegularFile {
    URL { url: String, len: Option<u64> },
    Buf(Vec<u8>),
}

impl RegularFile {
    /// The inline bytes, or `None` for a URL body.
    pub open spec fn bytes(&self) -> Option<Seq<u8>> {
        match self {
            RegularFile::Buf(b) => Some(b@),
            RegularFile::URL { .. } => None,
        }
    }

    /// The size of the body as far as it is known.
    pub open spec fn spec_size(&self) -> Option<u64> {
        match self {
            RegularFile::Buf(b) => Some(b@.len() as u64),
            RegularFile::URL { len, .. } => *len,
        }
    }

    /// The inline bytes once a URL body is replaced by `fetched`, the
    /// contents that the host delivered for it (`None`: the host failed).
    pub open spec fn promoted(&self, fetched: Option<Vec<u8>>) -> Option<Seq<u8>> {
        match self {
            RegularFile::Buf(b) => Some(b@),
            RegularFile::URL { .. } => match fetched {
                Some(v) => Some(v@),
                None => None,
            },
        }
    }

    pub fn is_buf(&self) -> (r: bool)
        ensures
            r == self.bytes().is_some(),
    {
        match self {
            RegularFile::Buf(_) => true,
            RegularFile::URL { .. } => false,
        }
    }

    /// The URL a body refers to, or `None` for an inline body.
    pub fn url(&self) -> (r: Option<&String>)
        ensures
            r.is_some() == self.bytes().is_none(),
            match self {
                RegularFile::URL { url, .. } => r == Some(url),
                RegularFile::Buf(_) => true,
            },
    {
        match self {
            RegularFile::URL { url, .. } => Some(url),
            RegularFile::Buf(_) => None,
        }
    }

    /// Size in bytes: the buffer's length, or the cached length of a URL
    /// body (`None` until the host has reported it, see `cache_len`).
    pub fn size(&self) -> (r: Option<u64>)
        requires
            self.bytes() is Some ==> self.bytes().unwrap().len() <= u64::MAX,
        ensures
            r == self.spec_size(),
    {
        match self {
            RegularFile::Buf(b) => Some(b.len() as u64),
            RegularFile::URL { len, .. } => *len,
        }
    }

    /// Records the length that the host reported for a URL body. The cache
    /// is filled once: a known length is kept, and an inline body is untouched.
    pub fn cache_len(&mut self, n: u64)
        ensures
            match *old(self) {
                RegularFile::URL { url, len: None } => *final(self) == (RegularFile::URL {
                    url,
                    len: Some(n),
                }),
                _ => *final(self) == *old(self),
            },
    {
        match self {
            RegularFile::URL { len, .. } => {
                if len.is_none() {
                    *len = Some(n);
                }
            },
            RegularFile::Buf(_) => {},
        }
    }

    /// Turns a URL body into an inline buffer holding `fetched`, the bytes
    /// that the host delivered for the URL; `Io` where the host delivered
    /// none. An inline body is left as it is.
    pub fn to_buf(&mut self, fetched: Option<Vec<u8>>) -> (r: Result<(), Errno>)
        ensures
            match old(self).promoted(fetched) {
                Some(b) => r is Ok && final(self).bytes() == Some(b),
                None => r == Err::<(), Errno>(Errno::Io) && *final(self) == *old(self),
            },
    {
        match self {
            RegularFile::Buf(_) => Ok(()),
            RegularFile::URL { .. } => {
                match fetched {
                    Some(b) => {
                        *self = RegularFile::Buf(b);
                        Ok(())
                    },
                    None => Err(Errno::Io),
                }
            },
        }
    }

    /// Stores `data` at `pos`, promoting a URL body first (see `to_buf`) and
    /// zero-filling the buffer up to `pos` where it is shorter. Returns the
    /// number of bytes written; `Nomem` where the end does not fit in memory.
    pub fn write(&mut self, fetched: Option<Vec<u8>>, data: &[u8], pos: u64) -> (r: Result<
        u64,
        Errno,
    >)
        ensures
            match old(self).promoted(fetched) {
                None => r == Err::<u64, Errno>(Errno::Io) && *final(self) == *old(self),
                Some(b) => if pos + data@.len() > usize::MAX {
                    r == Err::<u64, Errno>(Errno::Nomem) && final(self).bytes() == Some(b)
                } else {
                    r == Ok::<u64, Errno>(data@.len() as u64) && final(self).bytes() == Some(
                        write_at(b, data@, pos as nat),
                    )
                },
            },
    {
        self.to_buf(fetched)?;
        let end: u128 = pos as u128 + data.len() as u128;
        if end > usize::MAX as u128 {
            return Err(Errno::Nomem);
        }
        let pos = pos as usize;
        match self {
            RegularFile::Buf(buf) => {
                let ghost b0 = buf@;
                grow(buf, pos + data.len());
                let ghost g = buf@;
                let mut j: usize = 0;
                while j < data.len()
                    invariant
                        g == grow_to(b0, (pos + data@.len()) as nat),
                        g.len() >= pos + data@.len(),
                        pos + data@.len() <= usize::MAX,
                        buf@.len() == g.len(),
                        j <= data@.len(),
                        forall|k: int|
                            0 <= k < g.len() ==> #[trigger] buf@[k] == (if pos <= k < pos + j {
                                data@[k - pos]
                            } else {
                                g[k]
                            }),
                    decreases data@.len() - j,
                {
                    buf.set(pos + j, data[j]);
                    j = j + 1;
                }
                proof {
                    assert(buf@ =~= write_at(b0, data@, pos as nat));
                }
                Ok(data.len() as u64)
            },
            RegularFile::URL { .. } => Err(Errno::Io),
        }
    }

    /// Sets the length to `size`, promoting a URL body first: cuts the tail,
    /// or zero-extends. `Nomem` where `size` does not fit in memory.
    pub fn truncate(&mut self, fetched: Option<Vec<u8>>, size: u64) -> (r: Result<(), Errno>)
        ensures
            match old(self).promoted(fetched) {
                None => r == Err::<(), Errno>(Errno::Io) && *final(self) == *old(self),
                Some(b) => if size > usize::MAX {
                    r == Err::<(), Errno>(Errno::Nomem) && final(self).bytes() == Some(b)
                } else {
                    r is Ok && final(self).bytes() == Some(resized(b, size as nat))
                },
            },
    {
        self.to_buf(fetched)?;
        if size as u128 > usize::MAX as u128 {
            return Err(Errno::Nomem);
        }
        let size = size as usize;
        match self {
            RegularFile::Buf(buf) => {
                if size == 0 {
                    *buf = Vec::new();
                    proof {
                        assert(buf@ =~= resized(old(self).promoted(fetched).unwrap(), 0));
                    }
                } else if size > buf.len() {
                    grow(buf, size);
                } else {
                    buf.truncate(size);
                }
                Ok(())
            },
            RegularFile::URL { .. } => Err(Errno::Io),
        }
    }

    /// Grows the body to at least `offset + len` bytes, zero-filling,
    /// after promoting a URL body. `Nomem` where the end does not fit.
    pub fn allocate(&mut self, fetched: Option<Vec<u8>>, offset: u64, len: u64) -> (r: Result<
        (),
        Errno,
    >)
        ensures
            match old(self).promoted(fetched) {
                None => r == Err::<(), Errno>(Errno::Io) && *final(self) == *old(self),
                Some(b) => if offset + len > usize::MAX {
                    r == Err::<(), Errno>(Errno::Nomem) && final(self).bytes() == Some(b)
                } else {
                    r is Ok && final(self).bytes() == Some(grow_to(b, (offset + len) as nat))
                },
            },
    {
        self.to_buf(fetched)?;
        let end: u128 = offset as u128 + len as u128;
        if end > usize::MAX as u128 {
            return Err(Errno::Nomem);
        }
        match self {
            RegularFile::Buf(buf) => {
                grow(buf, end as usize);
                Ok(())
            },
            RegularFile::URL { .. } => Err(Errno::Io),
        }
    }

    /// The bytes that a read at `pos` delivers from an inline body; `None`
    /// for a URL body, whose bytes only the host can deliver.
    pub fn read(&self, pos: u64) -> (r: Option<Vec<u8>>)
        ensures
            match self.bytes() {
                Some(b) => r is Some && r.unwrap()@ == tail_from(b, pos as nat),
                None => r is None,
            },
    {
        match self {
            RegularFile::Buf(b) => {
                let mut out: Vec<u8> = Vec::new();
                if (pos as u128) < b.len() as u128 {
                    let start = pos as usize;
                    let mut i: usize = start;
                    while i < b.len()
                        invariant
                            start <= i <= b@.len(),
                            start == pos,
                            out@ == b@.subrange(start as int, i as int),
                        decreases b@.len() - i,
                    {
                        out.push(b[i]);
                        i = i + 1;
                        proof {
                            assert(out@ =~= b@.subrange(start as int, i as int));
                        }
                    }
                } else {
                    proof {
                        assert(out@ =~= tail_from(b@, pos as nat));
                    }
                }
                Some(out)
            },
            RegularFile::URL { .. } => None,
        }
    }
}

/// Zero-extends `buf` to `n` bytes; a longer buffer is left as it is.
fn grow(buf: &mut Vec<u8>, n: usize)
    ensures
        final(buf)@ == grow_to(old(buf)@, n as nat),
{
    let ghost b0 = buf@;
    if n <= buf.len() {
        return;
    }
    while buf.len() < n
        invariant
            b0.len() <= buf@.len() <= n,
            buf@ =~= b0 + zeros((buf@.len() - b0.len()) as nat),
        decreases n - buf@.len(),
    {
        buf.push(0);
        proof {
            assert(buf@ =~= b0 + zeros((buf@.len() - b0.len()) as nat));
        }
    }
}

} // verus!

//! Transaction modes and snapshot visibility.
//!
//! A snapshot is a point-in-time view: a version plus the set of transaction
//! IDs that were in flight when the snapshot was taken. Those IDs are masked
//! out ("invisible") even though they are at or below the version. A version
//! is visible exactly when it is at most the snapshot version and not in the
//! invisible set.

use vstd::prelude::*;
use crate::keycode::{be64, u64_of_be, lemma_u64_be_roundtrip};

verus! {

/// An MVCC transaction mode.
#[derive(Clone, Copy, Debug, PartialEq, Eq, Structural)]
pub enum Mode {
    /// A read-write transaction.
    ReadWrite,
    /// A read-only transaction.
    ReadOnly,
    /// A read-only transaction running in the snapshot of a given version,
    /// which must name a past transaction with a persisted snapshot.
    Snapshot { version: u64 },
}

impl Mode {
    /// Can this mode mutate data?
    pub open spec fn spec_mutable(&self) -> bool {
        self matches Mode::ReadWrite
    }

    /// Checks whether the transaction mode can mutate data.
    pub fn mutable(&self) -> (r: bool)
        ensures
            r == self.spec_mutable(),
    {
        match self {
            Mode::ReadWrite => true,
            Mode::ReadOnly => false,
            Mode::Snapshot { .. } => false,
        }
    }

    /// Does this mode satisfy a required mode?
    pub open spec fn spec_satisfies(&self, other: &Mode) -> bool {
        ||| (self matches Mode::ReadWrite) && (other matches Mode::ReadOnly)
        ||| (self matches Mode::Snapshot { .. }) && (other matches Mode::ReadOnly)
        ||| self == other
    }

    /// Checks whether a mode satisfies a required mode (a read-write
    /// transaction serves where read-only is required, and so does a
    /// snapshot transaction).
    pub fn satisfies(&self, other: &Mode) -> (r: bool)
        ensures
            r == self.spec_satisfies(other),
    {
        match (self, other) {
            (Mode::ReadWrite, Mode::ReadOnly) => true,
            (Mode::Snapshot { .. }, Mode::ReadOnly) => true,
            (_, _) => *self == *other,
        }
    }
}

/// The stored encoding of a mode: a tag byte, and for `Snapshot` the version
/// in big-endian.
pub open spec fn mode_enc(m: Mode) -> Seq<u8> {
    match m {
        Mode::ReadWrite => seq![0u8],
        Mode::ReadOnly => seq![1u8],
        Mode::Snapshot { version } => seq![2u8] + be64(version),
    }
}

/// The mode read back from its stored encoding, if any.
pub open spec fn mode_dec(b: Seq<u8>) -> Option<Mode> {
    if b.len() == 1 && b[0] == 0 {
        Some(Mode::ReadWrite)
    } else if b.len() == 1 && b[0] == 1 {
        Some(Mode::ReadOnly)
    } else if b.len() == 9 && b[0] == 2 {
        Some(Mode::Snapshot { version: u64_of_be(b.skip(1)) })
    } else {
        None
    }
}

/// Decoding undoes the mode encoding.
pub proof fn lemma_mode_roundtrip(m: Mode)
    ensures
        mode_dec(mode_enc(m)) == Some(m),
{
    match m {
        Mode::ReadWrite => {}
        Mode::ReadOnly => {}
        Mode::Snapshot { version } => {
            assert(mode_enc(m).skip(1) =~= be64(version));
            lemma_u64_be_roundtrip(version);
        }
    }
}

/// Encodes a mode for storage under its transaction's active marker.
pub fn encode_mode(m: &Mode) -> (r: Vec<u8>)
    ensures
        r@ == mode_enc(*m),
{
    let mut out: Vec<u8> = Vec::new();
    match m {
        Mode::ReadWrite => {
            out.push(0);
        }
        Mode::ReadOnly => {
            out.push(1);
        }
        Mode::Snapshot { version } => {
            let n = *version;
            out.push(2);
            out.push((n >> 56) as u8);
            out.push((n >> 48) as u8);
            out.push((n >> 40) as u8);
            out.push((n >> 32) as u8);
            out.push((n >> 24) as u8);
            out.push((n >> 16) as u8);
            out.push((n >> 8) as u8);
            out.push(n as u8);
            proof {
                assert(out@ =~= mode_enc(*m));
            }
        }
    }
    proof {
        assert(out@ =~= mode_enc(*m));
    }
    out
}

/// Decodes a stored mode.
pub fn decode_mode(b: &[u8]) -> (r: Option<Mode>)
    ensures
        r == mode_dec(b@),
{
    if b.len() == 1 && b[0] == 0 {
        Some(Mode::ReadWrite)
    } else if b.len() == 1 && b[0] == 1 {
        Some(Mode::ReadOnly)
    } else if b.len() == 9 && b[0] == 2 {
        let n = ((b[1] as u64) << 56) | ((b[2] as u64) << 48) | ((b[3] as u64) << 40)
            | ((b[4] as u64) << 32) | ((b[5] as u64) << 24) | ((b[6] as u64) << 16)
            | ((b[7] as u64) << 8) | (b[8] as u64);
        proof {
            assert(b@.skip(1) =~= seq![b@[1], b@[2], b@[3], b@[4], b@[5], b@[6], b@[7], b@[8]]);
            assert(u64_of_be(b@.skip(1)) == n);
        }
        Some(Mode::Snapshot { version: n })
    } else {
        None
    }
}

/// Is version `v` visible from a snapshot at `version` with the given
/// invisible set?
pub open spec fn visible(version: u64, invisible: Seq<u64>, v: u64) -> bool {
    v <= version && !invisible.contains(v)
}

/// A versioned snapshot: the version it belongs to, and the transaction IDs
/// that were active when it was taken, in ascending order.
pub struct Snapshot {
    version: u64,
    invisible: Vec<u64>,
}

impl Snapshot {
    /// Builds a snapshot from a version and its invisible ID list.
    pub fn new(version: u64, invisible: Vec<u64>) -> (r: Snapshot)
        ensures
            r.spec_version() == version,
            r.spec_invisible() == invisible@,
    {
        Snapshot { version, invisible }
    }

    /// The version (transaction ID) the snapshot belongs to.
    pub closed spec fn spec_version(&self) -> u64 {
        self.version
    }

    /// The transaction IDs masked out of this snapshot, ascending.
    pub closed spec fn spec_invisible(&self) -> Seq<u64> {
        self.invisible@
    }

    /// The invisible list is strictly ascending and below the version.
    pub open spec fn wf(&self) -> bool {
        &&& forall|i: int, j: int|
            0 <= i < j < self.spec_invisible().len()
                ==> self.spec_invisible()[i] < self.spec_invisible()[j]
        &&& forall|i: int| 0 <= i < self.spec_invisible().len()
            ==> #[trigger] self.spec_invisible()[i] < self.spec_version()
    }

    /// Is version `v` visible in this snapshot?
    pub open spec fn spec_visible(&self, v: u64) -> bool {
        visible(self.spec_version(), self.spec_invisible(), v)
    }

    /// Returns the snapshot's version.
    pub fn version(&self) -> (r: u64)
        ensures
            r == self.spec_version(),
    {
        self.version
    }

    /// Checks whether the given version is visible in this snapshot.
    pub fn is_visible(&self, v: u64) -> (r: bool)
        ensures
            r == self.spec_visible(v),
    {
        if v > self.version {
            return false;
        }
        let n: usize = self.invisible.len();
        let mut i: usize = 0;
        while i < n
            invariant
                0 <= i <= n,
                n == self.spec_invisible().len(),
                forall|j: int| 0 <= j < i ==> self.spec_invisible()[j] != v,
            decreases n - i,
        {
            if self.invisible[i] == v {
                return false;
            }
            i = i + 1;
        }
        proof {
            if self.spec_invisible().contains(v) {
                let j = choose|j: int|
                    0 <= j < self.spec_invisible().len() && self.spec_invisible()[j] == v;
                assert(false);
            }
        }
        true
    }

    /// The least invisible ID, or `default` if the invisible set is empty.
    pub fn min_invisible_or(&self, default: u64) -> (r: u64)
        ensures
            self.spec_invisible().len() == 0 ==> r == default,
            self.spec_invisible().len() > 0 ==> r == self.spec_invisible()[0],
    {
        if self.invisible.len() == 0 {
            default
        } else {
            self.invisible[0]
        }
    }

    /// Copies the snapshot.
    pub fn duplicate(&self) -> (r: Snapshot)
        ensures
            r.spec_version() == self.spec_version(),
            r.spec_invisible() == self.spec_invisible(),
    {
        Snapshot {
            version: self.version,
            invisible: vstd::slice::slice_to_vec(self.invisible.as_slice()),
        }
    }
}

} // verus!

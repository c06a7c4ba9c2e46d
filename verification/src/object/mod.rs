//! What every kernel object has in common: an identifier, a name and a word
//! of signals.
use vstd::prelude::*;

pub mod handle;
pub mod rights;

verus! {

/// Kernel object identifier. `0` stands for "no object".
pub type KoID = u64;

/// Longest name an object keeps, in bytes.
pub const MAX_NAME_LEN: usize = 32;

/// Source of kernel object identifiers.
pub struct KoidAllocator {
    next: u64,
}

impl KoidAllocator {
    /// The identifier that the next successful [`KoidAllocator::allocate`] emits.
    pub closed spec fn next_koid(&self) -> u64 {
        self.next
    }

    /// The allocator never stands at the reserved identifier.
    pub open spec fn wf(&self) -> bool {
        self.next_koid() != 0
    }

    /// The allocator after `n` identifiers were taken from `self`.
    pub closed spec fn advanced(&self, n: nat) -> KoidAllocator {
        if self.next + n <= u64::MAX {
            KoidAllocator { next: (self.next + n) as u64 }
        } else {
            KoidAllocator { next: u64::MAX }
        }
    }

    /// An allocator whose first identifier is `1`.
    pub fn new() -> (a: Self)
        ensures
            a.wf(),
            a.next_koid() == 1,
    {
        KoidAllocator { next: 1 }
    }

    /// The identifier that the next successful call of `allocate` emits.
    pub fn peek(&self) -> (k: u64)
        ensures
            k == self.next_koid(),
    {
        self.next
    }

    /// Emits a fresh identifier, or `None` once the identifier space is
    /// used up.
    pub fn allocate(&mut self) -> (r: Option<KoID>)
        requires
            old(self).wf(),
        ensures
            final(self).wf(),
            r is Some <==> old(self).next_koid() < u64::MAX,
            r is None ==> *final(self) == *old(self),
            r matches Some(k) ==> {
                &&& k == old(self).next_koid()
                &&& k != 0
                &&& final(self).next_koid() == k + 1
                &&& *final(self) == old(self).advanced(1)
            },
    {
        if self.next == u64::MAX {
            None
        } else {
            let k: u64 = self.next;
            self.next = k + 1;
            Some(k)
        }
    }
}

/// Identifiers come out in strictly increasing order and none is `0`: the
/// one emitted after `n` earlier ones is `next_koid() + n`, as long as the
/// space is not used up.
pub proof fn lemma_koids_strictly_increase(a: KoidAllocator, m: nat, n: nat)
    requires
        a.wf(),
        m < n,
        a.next_koid() + n < u64::MAX,
    ensures
        a.advanced(m).wf(),
        a.advanced(n).wf(),
        a.advanced(m).next_koid() == a.next_koid() + m,
        a.advanced(m).next_koid() < a.advanced(n).next_koid(),
        a.advanced(m).next_koid() != 0,
        a.advanced(m).advanced(1) == a.advanced(m + 1),
{
}

/// The first `MAX_NAME_LEN` bytes of `name`, or all of it if it is shorter.
pub open spec fn truncated_name(name: Seq<u8>) -> Seq<u8> {
    if name.len() <= 32 {
        name
    } else {
        name.subrange(0, 32)
    }
}

/// `signals` after the bits of `clear` were taken out and then the bits of
/// `set` put in.
pub open spec fn signals_changed(signals: u32, clear: u32, set: u32) -> u32 {
    (signals & !clear) | set
}

/// The part that all kernel objects share.
pub struct KObjectBase {
    id: KoID,
    name: Vec<u8>,
    signals: u32,
}

impl KObjectBase {
    /// The object's identifier.
    pub closed spec fn koid(&self) -> KoID {
        self.id
    }

    /// The object's name, as bytes.
    pub closed spec fn name_spec(&self) -> Seq<u8> {
        self.name@
    }

    /// The object's signal word.
    pub closed spec fn signals_spec(&self) -> u32 {
        self.signals
    }

    /// The name is never longer than `MAX_NAME_LEN`.
    pub open spec fn wf(&self) -> bool {
        self.name_spec().len() <= 32
    }

    /// A nameless object with no signal raised.
    pub fn new(id: KoID) -> (base: Self)
        ensures
            base.wf(),
            base.koid() == id,
            base.name_spec() == Seq::<u8>::empty(),
            base.signals_spec() == 0,
    {
        KObjectBase { id, name: Vec::new(), signals: 0 }
    }

    /// An object that starts out with the name `name`, cut to
    /// `MAX_NAME_LEN` bytes.
    pub fn with_name(id: KoID, name: &[u8]) -> (base: Self)
        ensures
            base.wf(),
            base.koid() == id,
            base.name_spec() == truncated_name(name@),
            base.signals_spec() == 0,
    {
        let mut base = KObjectBase { id, name: Vec::new(), signals: 0 };
        base.set_name(name);
        base
    }

    /// The object's identifier.
    pub fn id(&self) -> (id: KoID)
        ensures
            id == self.koid(),
    {
        self.id
    }

    /// The object's name.
    pub fn name(&self) -> (name: &Vec<u8>)
        ensures
            name@ == self.name_spec(),
    {
        &self.name
    }

    /// Renames the object; only the first `MAX_NAME_LEN` bytes are kept.
    pub fn set_name(&mut self, name: &[u8])
        ensures
            final(self).wf(),
            final(self).koid() == old(self).koid(),
            final(self).signals_spec() == old(self).signals_spec(),
            final(self).name_spec() == truncated_name(name@),
    {
        let keep: usize = if name.len() <= MAX_NAME_LEN {
            name.len()
        } else {
            MAX_NAME_LEN
        };
        let mut kept: Vec<u8> = Vec::new();
        let mut i: usize = 0;
        while i < keep
            invariant
                i <= keep <= name@.len(),
                kept@ == name@.subrange(0, i as int),
            decreases keep - i,
        {
            kept.push(name[i]);
            i += 1;
        }
        proof {
            assert(name@.subrange(0, name@.len() as int) == name@);
        }
        self.name = kept;
    }

    /// The signals that are raised now.
    pub fn signal(&self) -> (s: u32)
        ensures
            s == self.signals_spec(),
    {
        self.signals
    }

    /// Lowers the signals in `clear`, then raises those in `set`.
    pub fn signal_change(&mut self, clear: u32, set: u32)
        ensures
            final(self).koid() == old(self).koid(),
            final(self).name_spec() == old(self).name_spec(),
            final(self).signals_spec() == signals_changed(old(self).signals_spec(), clear, set),
    {
        self.signals = (self.signals & !clear) | set;
    }

    /// Raises the signals in `set`.
    pub fn signal_set(&mut self, set: u32)
        ensures
            final(self).koid() == old(self).koid(),
            final(self).name_spec() == old(self).name_spec(),
            final(self).signals_spec() == signals_changed(old(self).signals_spec(), 0, set),
    {
        self.signal_change(0, set);
    }

    /// Lowers the signals in `clear`.
    pub fn signal_clear(&mut self, clear: u32)
        ensures
            final(self).koid() == old(self).koid(),
            final(self).name_spec() == old(self).name_spec(),
            final(self).signals_spec() == signals_changed(old(self).signals_spec(), clear, 0),
    {
        self.signal_change(clear, 0);
    }
}

/// How a wait for signals stands at one moment.
#[derive(Clone, Copy, Debug, PartialEq, Eq, Structural)]
pub enum WaitStatus {
    /// One of the awaited signals is raised; the whole signal word is given.
    Ready(u32),
    /// The waiting thread is dying.
    Canceled,
    /// The deadline has come.
    TimedOut,
    /// None of these: the wait goes on.
    Pending,
}

/// How a wait for any signal of `mask` stands when the object shows
/// `signals`, the clock shows `now`, the wait ends at `deadline` and the
/// waiting thread is `dying` or not.
pub open spec fn wait_status(signals: u32, mask: u32, now: u64, deadline: u64, dying: bool)
    -> WaitStatus {
    if signals & mask != 0 {
        WaitStatus::Ready(signals)
    } else if dying {
        WaitStatus::Canceled
    } else if now >= deadline {
        WaitStatus::TimedOut
    } else {
        WaitStatus::Pending
    }
}

/// Decides how a wait for any signal of `mask` stands. The caller reads the
/// signal word and the clock, and calls again later while the answer is
/// `Pending`.
pub fn poll_wait(signals: u32, mask: u32, now: u64, deadline: u64, dying: bool) -> (s: WaitStatus)
    ensures
        s == wait_status(signals, mask, now, deadline, dying),
{
    if signals & mask != 0 {
        WaitStatus::Ready(signals)
    } else if dying {
        WaitStatus::Canceled
    } else if now >= deadline {
        WaitStatus::TimedOut
    } else {
        WaitStatus::Pending
    }
}

/// The status that a finished wait hands to its caller; `None` while the
/// wait goes on.
pub fn wait_result(status: WaitStatus) -> (r: Option<Result<u32, crate::error::ZxError>>)
    ensures
        r == match status {
            WaitStatus::Ready(s) => Some(Ok::<u32, crate::error::ZxError>(s)),
            WaitStatus::Canceled => Some(
                Err::<u32, crate::error::ZxError>(crate::error::ZxError::CANCELED),
            ),
            WaitStatus::TimedOut => Some(
                Err::<u32, crate::error::ZxError>(crate::error::ZxError::TIMED_OUT),
            ),
            WaitStatus::Pending => None,
        },
{
    match status {
        WaitStatus::Ready(s) => Some(Ok(s)),
        WaitStatus::Canceled => Some(Err(crate::error::ZxError::CANCELED)),
        WaitStatus::TimedOut => Some(Err(crate::error::ZxError::TIMED_OUT)),
        WaitStatus::Pending => None,
    }
}

/// A wait on an object that never shows an awaited signal does not time out
/// before its deadline, and does so from the deadline on.
pub proof fn lemma_wait_times_out_at_deadline(
    signals: u32,
    mask: u32,
    now: u64,
    deadline: u64,
)
    requires
        signals & mask == 0,
    ensures
        now < deadline ==> wait_status(signals, mask, now, deadline, false) == WaitStatus::Pending,
        now >= deadline ==> wait_status(signals, mask, now, deadline, false)
            == WaitStatus::TimedOut,
{
}

} // verus!

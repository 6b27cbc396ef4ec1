//! Per-credential cooldown tracking with escalating backoff.
//!
//! Each credential is either available or cooling with a reason, an expiry
//! instant and a trigger count. Expiry is lazy: an entry whose expiry has
//! passed simply reads as available; `cleanup_expired` only compacts
//! storage. Times are plain milliseconds supplied by the caller-facing
//! wrappers from a wall clock; every state transition is verified relative
//! to an explicit `now_ms` argument.

use vstd::prelude::*;

verus! {

use crate::backoff::{
    backoff_duration,
    compute_backoff,
    lemma_backoff_le_cap,
    lemma_backoff_monotone,
    lemma_backoff_positive,
};

/// Why a credential was put on cooldown.
#[derive(Debug, Clone, Copy, PartialEq, Eq, Hash, Structural)]
pub enum CooldownReason {
    /// The upstream rate-limited the credential.
    RateLimitExceeded,
    /// The upstream suspended the account.
    AccountSuspended,
    /// The account's quota is exhausted.
    QuotaExhausted,
    /// Refreshing the credential's token failed.
    TokenRefreshFailed,
    /// The upstream rejected the credential outright.
    AuthenticationFailed,
    /// The upstream returned a server error.
    ServerError,
    /// The requested model is temporarily unavailable.
    ModelUnavailable,
}

pub open spec fn spec_default_duration(reason: CooldownReason) -> u64 {
    match reason {
        CooldownReason::RateLimitExceeded => 60,
        CooldownReason::TokenRefreshFailed => 60,
        CooldownReason::ServerError => 120,
        CooldownReason::ModelUnavailable => 300,
        CooldownReason::AuthenticationFailed => 3600,
        CooldownReason::AccountSuspended => 86400,
        CooldownReason::QuotaExhausted => 86400,
    }
}

pub open spec fn spec_is_auto_recoverable(reason: CooldownReason) -> bool {
    match reason {
        CooldownReason::RateLimitExceeded => true,
        CooldownReason::TokenRefreshFailed => true,
        CooldownReason::ServerError => true,
        CooldownReason::ModelUnavailable => true,
        CooldownReason::AuthenticationFailed => false,
        CooldownReason::AccountSuspended => false,
        CooldownReason::QuotaExhausted => false,
    }
}

pub open spec fn spec_description(reason: CooldownReason) -> Seq<char> {
    match reason {
        CooldownReason::RateLimitExceeded => "速率限制"@,
        CooldownReason::AccountSuspended => "账户暂停"@,
        CooldownReason::QuotaExhausted => "配额耗尽"@,
        CooldownReason::TokenRefreshFailed => "Token 刷新失败"@,
        CooldownReason::AuthenticationFailed => "认证失败"@,
        CooldownReason::ServerError => "服务器错误"@,
        CooldownReason::ModelUnavailable => "模型暂时不可用"@,
    }
}

impl CooldownReason {
    /// The default cooldown for this reason, in seconds.
    pub fn default_duration(&self) -> (r: u64)
        ensures
            r == spec_default_duration(*self),
    {
        match self {
            CooldownReason::RateLimitExceeded => 60,
            CooldownReason::TokenRefreshFailed => 60,
            CooldownReason::ServerError => 120,
            CooldownReason::ModelUnavailable => 300,
            CooldownReason::AuthenticationFailed => 3600,
            CooldownReason::AccountSuspended => 86400,
            CooldownReason::QuotaExhausted => 86400,
        }
    }

    /// Whether the failure heals on its own, so that the cooldown may stay
    /// short and escalate, rather than applying the long fixed window.
    pub fn is_auto_recoverable(&self) -> (r: bool)
        ensures
            r == spec_is_auto_recoverable(*self),
    {
        match self {
            CooldownReason::RateLimitExceeded => true,
            CooldownReason::TokenRefreshFailed => true,
            CooldownReason::ServerError => true,
            CooldownReason::ModelUnavailable => true,
            CooldownReason::AuthenticationFailed => false,
            CooldownReason::AccountSuspended => false,
            CooldownReason::QuotaExhausted => false,
        }
    }

    /// A short human-readable description of the reason.
    pub fn description(&self) -> (r: &'static str)
        ensures
            r@ == spec_description(*self),
    {
        match self {
            CooldownReason::RateLimitExceeded => "速率限制",
            CooldownReason::AccountSuspended => "账户暂停",
            CooldownReason::QuotaExhausted => "配额耗尽",
            CooldownReason::TokenRefreshFailed => "Token 刷新失败",
            CooldownReason::AuthenticationFailed => "认证失败",
            CooldownReason::ServerError => "服务器错误",
            CooldownReason::ModelUnavailable => "模型暂时不可用",
        }
    }
}

/// One credential's cooldown state.
#[derive(Debug, Clone, Copy, PartialEq, Eq, Structural)]
pub struct CooldownEntry {
    /// Why the credential is cooling.
    pub reason: CooldownReason,
    /// When the current window started, in clock milliseconds.
    pub started_at_ms: u64,
    /// When the current window ends, in clock milliseconds.
    pub expires_at_ms: u64,
    /// How many times the same reason has triggered in a row.
    pub trigger_count: u32,
}

/// A keyed cooldown entry as stored by the manager.
#[derive(Debug, Clone, Copy, PartialEq, Eq, Structural)]
pub struct CooldownSlot {
    pub credential_id: u64,
    pub entry: CooldownEntry,
}

/// Whether some slot carries `id`.
pub open spec fn has_slot(s: Seq<CooldownSlot>, id: u64) -> bool {
    exists|i: int| 0 <= i < s.len() && s[i].credential_id == id
}

/// The index of the slot carrying `id` (meaningful when ids are unique and
/// `has_slot` holds).
pub open spec fn slot_index(s: Seq<CooldownSlot>, id: u64) -> int {
    choose|i: int| 0 <= i < s.len() && s[i].credential_id == id
}

/// The entry stored for `id`, if any.
pub open spec fn entry_for(s: Seq<CooldownSlot>, id: u64) -> Option<CooldownEntry> {
    if has_slot(s, id) {
        Some(s[slot_index(s, id)].entry)
    } else {
        None
    }
}

/// The slots still cooling at `now`: the subsequence whose expiry lies in
/// the future, in storage order.
pub open spec fn active_slots(s: Seq<CooldownSlot>, now: u64) -> Seq<CooldownSlot>
    decreases s.len(),
{
    if s.len() == 0 {
        Seq::empty()
    } else if now < s[0].entry.expires_at_ms {
        seq![s[0]] + active_slots(s.drop_first(), now)
    } else {
        active_slots(s.drop_first(), now)
    }
}

/// The trigger count after one more trigger of `reason`: it increments
/// while the reason repeats (saturating), and resets to 1 when the reason
/// changes or no entry existed.
pub open spec fn next_trigger_count(prev: Option<CooldownEntry>, reason: CooldownReason) -> u32 {
    match prev {
        Some(e) => if e.reason == reason {
            if e.trigger_count == u32::MAX {
                u32::MAX
            } else {
                (e.trigger_count + 1) as u32
            }
        } else {
            1
        },
        None => 1,
    }
}

/// The duration applied by a trigger: a caller-supplied override wins;
/// otherwise auto-recoverable reasons escalate geometrically up to
/// `max_short`, and the rest get the fixed `long` window.
pub open spec fn spec_applied_duration(
    reason: CooldownReason,
    count: u32,
    custom: Option<u64>,
    max_short: u64,
    long: u64,
) -> u64
    recommends
        count >= 1,
{
    match custom {
        Some(d) => d,
        None => if spec_is_auto_recoverable(reason) {
            backoff_duration(spec_default_duration(reason), (count - 1) as nat, max_short)
        } else {
            long
        },
    }
}

/// A duration in seconds as milliseconds, saturating at `u64::MAX`.
pub open spec fn spec_duration_ms(dur_secs: u64) -> u64 {
    if dur_secs > u64::MAX / 1000 {
        u64::MAX
    } else {
        (dur_secs * 1000) as u64
    }
}

/// The expiry instant for a window of `dur_secs` starting at `now_ms`,
/// saturating at `u64::MAX`.
pub open spec fn spec_expiry(now_ms: u64, dur_secs: u64) -> u64 {
    if now_ms > u64::MAX - spec_duration_ms(dur_secs) {
        u64::MAX
    } else {
        (now_ms + spec_duration_ms(dur_secs)) as u64
    }
}

/// The entry written by a trigger at `now_ms`.
pub open spec fn spec_new_entry(
    prev: Option<CooldownEntry>,
    reason: CooldownReason,
    custom: Option<u64>,
    max_short: u64,
    long: u64,
    now_ms: u64,
) -> CooldownEntry {
    let count = next_trigger_count(prev, reason);
    let dur = spec_applied_duration(reason, count, custom, max_short, long);
    CooldownEntry {
        reason,
        started_at_ms: now_ms,
        expires_at_ms: spec_expiry(now_ms, dur),
        trigger_count: count,
    }
}

/// What `check_cooldown` reports at `now_ms`: `None` when no entry exists
/// or the entry has expired, otherwise the reason and the remaining
/// milliseconds.
pub open spec fn spec_check(s: Seq<CooldownSlot>, id: u64, now_ms: u64) -> Option<
    (CooldownReason, u64),
> {
    match entry_for(s, id) {
        Some(e) => if now_ms < e.expires_at_ms {
            Some((e.reason, (e.expires_at_ms - now_ms) as u64))
        } else {
            None
        },
        None => None,
    }
}

/// The observability record for one cooling credential.
#[derive(Debug, Clone, Copy, PartialEq, Eq, Structural)]
pub struct CooldownInfo {
    pub credential_id: u64,
    pub reason: CooldownReason,
    /// Milliseconds elapsed since the window started.
    pub started_at_ms: u64,
    /// Milliseconds until the window ends.
    pub remaining_ms: u64,
    pub trigger_count: u32,
}

/// The observability record for `slot` as seen at `now`.
pub open spec fn spec_info(slot: CooldownSlot, now: u64) -> CooldownInfo {
    CooldownInfo {
        credential_id: slot.credential_id,
        reason: slot.entry.reason,
        started_at_ms: if now >= slot.entry.started_at_ms {
            (now - slot.entry.started_at_ms) as u64
        } else {
            0
        },
        remaining_ms: if now < slot.entry.expires_at_ms {
            (slot.entry.expires_at_ms - now) as u64
        } else {
            0
        },
        trigger_count: slot.entry.trigger_count,
    }
}

/// Tracks the cooldown state of every credential.
pub struct CooldownManager {
    entries: Vec<CooldownSlot>,
    max_short_cooldown_secs: u64,
    long_cooldown_secs: u64,
}

impl CooldownManager {
    /// The stored slots, one per cooling credential.
    pub closed spec fn slots(&self) -> Seq<CooldownSlot> {
        self.entries@
    }

    /// The escalation cap for auto-recoverable reasons, in seconds.
    pub closed spec fn max_short(&self) -> u64 {
        self.max_short_cooldown_secs
    }

    /// The fixed window for non-recoverable reasons, in seconds.
    pub closed spec fn long_cooldown(&self) -> u64 {
        self.long_cooldown_secs
    }

    /// At most one slot per credential.
    pub open spec fn wf(&self) -> bool {
        forall|i: int, j: int|
            0 <= i < j < self.slots().len() ==> self.slots()[i].credential_id
                != self.slots()[j].credential_id
    }

    /// A manager with the default configuration: a five-minute escalation
    /// cap and a twenty-four-hour long window.
    pub fn new() -> (m: Self)
        ensures
            m.wf(),
            m.slots() == Seq::<CooldownSlot>::empty(),
            m.max_short() == 300,
            m.long_cooldown() == 86400,
    {
        CooldownManager {
            entries: Vec::new(),
            max_short_cooldown_secs: 300,
            long_cooldown_secs: 86400,
        }
    }

    /// A manager with explicit configuration.
    pub fn with_config(max_short_cooldown_secs: u64, long_cooldown_secs: u64) -> (m: Self)
        ensures
            m.wf(),
            m.slots() == Seq::<CooldownSlot>::empty(),
            m.max_short() == max_short_cooldown_secs,
            m.long_cooldown() == long_cooldown_secs,
    {
        CooldownManager { entries: Vec::new(), max_short_cooldown_secs, long_cooldown_secs }
    }

    /// The index of the slot carrying `credential_id`, if any.
    fn find(&self, credential_id: u64) -> (r: Option<usize>)
        requires
            self.wf(),
        ensures
            match r {
                Some(i) => i < self.slots().len() && self.slots()[i as int].credential_id
                    == credential_id && has_slot(self.slots(), credential_id) && slot_index(
                    self.slots(),
                    credential_id,
                ) == i,
                None => !has_slot(self.slots(), credential_id),
            },
    {
        let n = self.entries.len();
        let mut i: usize = 0;
        while i < n
            invariant
                self.wf(),
                n == self.slots().len(),
                i <= n,
                forall|m: int| 0 <= m < i ==> self.slots()[m].credential_id != credential_id,
            decreases n - i,
        {
            if self.entries[i].credential_id == credential_id {
                proof {
                    assert(has_slot(self.slots(), credential_id));
                    let j = slot_index(self.slots(), credential_id);
                    assert(0 <= j < self.slots().len() && self.slots()[j].credential_id
                        == credential_id);
                    assert(j == i);
                }
                return Some(i);
            }
            i = i + 1;
        }
        None
    }

    /// Puts `credential_id` on cooldown for `reason` at instant `now_ms`,
    /// with an optional override of the duration in seconds. Returns the
    /// duration applied, in seconds.
    pub fn set_cooldown_at(
        &mut self,
        credential_id: u64,
        reason: CooldownReason,
        custom_duration: Option<u64>,
        now_ms: u64,
    ) -> (dur: u64)
        requires
            old(self).wf(),
        ensures
            final(self).wf(),
            final(self).max_short() == old(self).max_short(),
            final(self).long_cooldown() == old(self).long_cooldown(),
            dur == spec_applied_duration(
                reason,
                next_trigger_count(entry_for(old(self).slots(), credential_id), reason),
                custom_duration,
                old(self).max_short(),
                old(self).long_cooldown(),
            ),
            entry_for(final(self).slots(), credential_id) == Some(
                spec_new_entry(
                    entry_for(old(self).slots(), credential_id),
                    reason,
                    custom_duration,
                    old(self).max_short(),
                    old(self).long_cooldown(),
                    now_ms,
                ),
            ),
            forall|other: u64|
                other != credential_id ==> entry_for(final(self).slots(), other) == entry_for(
                    old(self).slots(),
                    other,
                ),
    {
        let prev_index = self.find(credential_id);
        let ghost prev = entry_for(self.slots(), credential_id);
        let count: u32 = match prev_index {
            Some(i) => {
                let e = &self.entries[i].entry;
                if e.reason == reason {
                    if e.trigger_count == u32::MAX {
                        u32::MAX
                    } else {
                        e.trigger_count + 1
                    }
                } else {
                    1
                }
            },
            None => 1,
        };
        assert(count == next_trigger_count(prev, reason));
        let dur: u64 = match custom_duration {
            Some(d) => d,
            None => {
                if reason.is_auto_recoverable() {
                    compute_backoff(reason.default_duration(), count - 1, self.max_short_cooldown_secs)
                } else {
                    self.long_cooldown_secs
                }
            },
        };
        let dur_ms: u64 = if dur > u64::MAX / 1000 {
            u64::MAX
        } else {
            dur * 1000
        };
        let expires_at_ms: u64 = if now_ms > u64::MAX - dur_ms {
            u64::MAX
        } else {
            now_ms + dur_ms
        };
        let entry = CooldownEntry { reason, started_at_ms: now_ms, expires_at_ms, trigger_count: count };
        let slot = CooldownSlot { credential_id, entry };
        match prev_index {
            Some(i) => {
                self.entries[i] = slot;
                proof {
                    let s0 = old(self).slots();
                    let s1 = self.slots();
                    assert(s1 == s0.update(slot_index(s0, credential_id), slot));
                    assert(has_slot(s1, credential_id));
                    assert(slot_index(s1, credential_id) == slot_index(s0, credential_id)) by {
                        let j = slot_index(s1, credential_id);
                        assert(0 <= j < s1.len() && s1[j].credential_id == credential_id);
                    }
                    assert forall|other: u64| other != credential_id implies entry_for(s1, other)
                        == entry_for(s0, other) by {
                        if has_slot(s0, other) {
                            let j = slot_index(s0, other);
                            assert(0 <= j < s1.len() && s1[j].credential_id == other);
                            assert(has_slot(s1, other));
                            assert(s1[slot_index(s1, other)].credential_id == other);
                            assert(slot_index(s1, other) == j);
                        } else if has_slot(s1, other) {
                            let j = slot_index(s1, other);
                            assert(0 <= j < s0.len() && s0[j].credential_id == other);
                        }
                    }
                }
            },
            None => {
                self.entries.push(slot);
                proof {
                    let s0 = old(self).slots();
                    let s1 = self.slots();
                    assert(s1 == s0.push(slot));
                    assert(s1[s0.len() as int].credential_id == credential_id);
                    assert(has_slot(s1, credential_id));
                    assert(slot_index(s1, credential_id) == s0.len()) by {
                        let j = slot_index(s1, credential_id);
                        assert(0 <= j < s1.len() && s1[j].credential_id == credential_id);
                        assert(j < s0.len() ==> s0[j].credential_id == credential_id);
                    }
                    assert forall|other: u64| other != credential_id implies entry_for(s1, other)
                        == entry_for(s0, other) by {
                        if has_slot(s0, other) {
                            let j = slot_index(s0, other);
                            assert(0 <= j < s1.len() && s1[j].credential_id == other);
                            assert(has_slot(s1, other));
                            let j1 = slot_index(s1, other);
                            assert(0 <= j1 < s1.len() && s1[j1].credential_id == other);
                            assert(j1 < s0.len());
                            assert(j1 == j);
                        } else if has_slot(s1, other) {
                            let j = slot_index(s1, other);
                            assert(0 <= j < s1.len() && s1[j].credential_id == other);
                            assert(j < s0.len());
                        }
                    }
                }
            },
        }
        dur
    }

    /// Reports the reason and remaining milliseconds if `credential_id` is
    /// still cooling at `now_ms`.
    pub fn check_cooldown_at(&self, credential_id: u64, now_ms: u64) -> (r: Option<
        (CooldownReason, u64),
    >)
        requires
            self.wf(),
        ensures
            r == spec_check(self.slots(), credential_id, now_ms),
    {
        match self.find(credential_id) {
            Some(i) => {
                let e = &self.entries[i].entry;
                if now_ms < e.expires_at_ms {
                    Some((e.reason, e.expires_at_ms - now_ms))
                } else {
                    None
                }
            },
            None => None,
        }
    }

    /// Whether `credential_id` may be used at `now_ms`.
    pub fn is_available_at(&self, credential_id: u64, now_ms: u64) -> (r: bool)
        requires
            self.wf(),
        ensures
            r == spec_check(self.slots(), credential_id, now_ms) is None,
    {
        self.check_cooldown_at(credential_id, now_ms).is_none()
    }

    /// Removes any cooldown entry for `credential_id`; reports whether one
    /// existed.
    pub fn clear_cooldown(&mut self, credential_id: u64) -> (r: bool)
        requires
            old(self).wf(),
        ensures
            final(self).wf(),
            final(self).max_short() == old(self).max_short(),
            final(self).long_cooldown() == old(self).long_cooldown(),
            r == has_slot(old(self).slots(), credential_id),
            entry_for(final(self).slots(), credential_id) == None::<CooldownEntry>,
            forall|other: u64|
                other != credential_id ==> entry_for(final(self).slots(), other) == entry_for(
                    old(self).slots(),
                    other,
                ),
    {
        match self.find(credential_id) {
            Some(i) => {
                self.entries.remove(i);
                proof {
                    let s0 = old(self).slots();
                    let s1 = self.slots();
                    let k = slot_index(s0, credential_id);
                    assert(s1 == s0.remove(k));
                    assert(!has_slot(s1, credential_id)) by {
                        if has_slot(s1, credential_id) {
                            let j = slot_index(s1, credential_id);
                            assert(0 <= j < s1.len() && s1[j].credential_id == credential_id);
                            if j < k {
                                assert(s0[j].credential_id == credential_id);
                            } else {
                                assert(s0[j + 1].credential_id == credential_id);
                            }
                        }
                    }
                    assert forall|other: u64| other != credential_id implies entry_for(s1, other)
                        == entry_for(s0, other) by {
                        if has_slot(s0, other) {
                            let j = slot_index(s0, other);
                            assert(0 <= j < s0.len() && s0[j].credential_id == other);
                            if j < k {
                                assert(s1[j].credential_id == other);
                            } else {
                                assert(j > k);
                                assert(s1[j - 1].credential_id == other);
                            }
                            assert(has_slot(s1, other));
                            let j1 = slot_index(s1, other);
                            assert(0 <= j1 < s1.len() && s1[j1].credential_id == other);
                            if j1 < k {
                                assert(s0[j1].credential_id == other);
                                assert(j1 == j);
                            } else {
                                assert(s0[j1 + 1].credential_id == other);
                                assert(j1 + 1 == j);
                            }
                        } else {
                            if has_slot(s1, other) {
                                let j1 = slot_index(s1, other);
                                assert(0 <= j1 < s1.len() && s1[j1].credential_id == other);
                                if j1 < k {
                                    assert(s0[j1].credential_id == other);
                                } else {
                                    assert(s0[j1 + 1].credential_id == other);
                                }
                            }
                        }
                    }
                }
                true
            },
            None => false,
        }
    }

    /// Drops every entry whose window has ended by `now_ms`; reports how
    /// many were removed. Purely housekeeping: availability is unchanged.
    pub fn cleanup_expired_at(&mut self, now_ms: u64) -> (removed: usize)
        requires
            old(self).wf(),
        ensures
            final(self).wf(),
            final(self).max_short() == old(self).max_short(),
            final(self).long_cooldown() == old(self).long_cooldown(),
            final(self).slots() == active_slots(old(self).slots(), now_ms),
            removed == old(self).slots().len() - final(self).slots().len(),
    {
        let n = self.entries.len();
        let mut kept: Vec<CooldownSlot> = Vec::new();
        let mut i: usize = 0;
        while i < n
            invariant
                old(self).wf(),
                self == old(self),
                n == self.slots().len(),
                i <= n,
                kept@ == active_slots(self.slots().take(i as int), now_ms),
                kept@.len() <= i,
                forall|a: int, b: int|
                    0 <= a < b < kept@.len() ==> kept@[a].credential_id != kept@[b].credential_id,
                forall|a: int|
                    0 <= a < kept@.len() ==> exists|j: int|
                        0 <= j < i && self.slots()[j] == #[trigger] kept@[a],
            decreases n - i,
        {
            proof {
                lemma_active_slots_take_step(self.slots(), now_ms, i as int);
            }
            let slot = self.entries[i];
            if now_ms < slot.entry.expires_at_ms {
                proof {
                    assert forall|a: int| 0 <= a < kept@.len() implies kept@[a].credential_id
                        != slot.credential_id by {
                        let j = choose|j: int| 0 <= j < i && self.slots()[j] == kept@[a];
                        assert(self.slots()[j].credential_id != self.slots()[i as int].credential_id);
                    }
                }
                kept.push(slot);
            }
            i = i + 1;
        }
        proof {
            assert(self.slots().take(n as int) == self.slots());
        }
        let removed = n - kept.len();
        self.entries = kept;
        removed
    }

    /// A snapshot of every credential still cooling at `now_ms`.
    pub fn get_all_cooldowns_at(&self, now_ms: u64) -> (r: Vec<CooldownInfo>)
        requires
            self.wf(),
        ensures
            r@.len() == active_slots(self.slots(), now_ms).len(),
            forall|i: int|
                0 <= i < r@.len() ==> r@[i] == spec_info(
                    active_slots(self.slots(), now_ms)[i],
                    now_ms,
                ),
    {
        let n = self.entries.len();
        let mut out: Vec<CooldownInfo> = Vec::new();
        let mut i: usize = 0;
        while i < n
            invariant
                self.wf(),
                n == self.slots().len(),
                i <= n,
                out@.len() == active_slots(self.slots().take(i as int), now_ms).len(),
                forall|a: int|
                    0 <= a < out@.len() ==> out@[a] == spec_info(
                        active_slots(self.slots().take(i as int), now_ms)[a],
                        now_ms,
                    ),
            decreases n - i,
        {
            proof {
                lemma_active_slots_take_step(self.slots(), now_ms, i as int);
            }
            let slot = self.entries[i];
            if now_ms < slot.entry.expires_at_ms {
                let elapsed = if now_ms >= slot.entry.started_at_ms {
                    now_ms - slot.entry.started_at_ms
                } else {
                    0
                };
                out.push(
                    CooldownInfo {
                        credential_id: slot.credential_id,
                        reason: slot.entry.reason,
                        started_at_ms: elapsed,
                        remaining_ms: slot.entry.expires_at_ms - now_ms,
                        trigger_count: slot.entry.trigger_count,
                    },
                );
            }
            i = i + 1;
        }
        proof {
            assert(self.slots().take(n as int) == self.slots());
        }
        out
    }
}

/// Relies on `std::time::SystemTime::now`: the wall clock as milliseconds
/// since the Unix epoch, zero if the clock reads before the epoch. Nothing
/// is promised of the value; every state transition is specified relative
/// to whatever instant this returns.
#[verifier::external_body]
fn now_millis() -> u64 {
    match std::time::SystemTime::now().duration_since(std::time::UNIX_EPOCH) {
        Ok(d) => u64::try_from(d.as_millis()).unwrap_or(u64::MAX),
        Err(_) => 0,
    }
}

impl Default for CooldownManager {
    /// Same as `CooldownManager::new`.
    fn default() -> (m: Self)
        ensures
            m.wf(),
            m.slots() == Seq::<CooldownSlot>::empty(),
            m.max_short() == 300,
            m.long_cooldown() == 86400,
    {
        CooldownManager::new()
    }
}

impl CooldownManager {
    /// Puts `credential_id` on cooldown for `reason` at the current clock
    /// reading, with the duration computed by the backoff rule. Returns
    /// the duration applied, in seconds.
    pub fn set_cooldown(&mut self, credential_id: u64, reason: CooldownReason) -> (dur: u64)
        requires
            old(self).wf(),
        ensures
            final(self).wf(),
            final(self).max_short() == old(self).max_short(),
            final(self).long_cooldown() == old(self).long_cooldown(),
            dur == spec_applied_duration(
                reason,
                next_trigger_count(entry_for(old(self).slots(), credential_id), reason),
                None,
                old(self).max_short(),
                old(self).long_cooldown(),
            ),
            exists|now_ms: u64|
                entry_for(final(self).slots(), credential_id) == Some(
                    spec_new_entry(
                        entry_for(old(self).slots(), credential_id),
                        reason,
                        None,
                        old(self).max_short(),
                        old(self).long_cooldown(),
                        now_ms,
                    ),
                ),
            forall|other: u64|
                other != credential_id ==> entry_for(final(self).slots(), other) == entry_for(
                    old(self).slots(),
                    other,
                ),
    {
        self.set_cooldown_with_duration(credential_id, reason, None)
    }

    /// Like `set_cooldown`, but a caller-supplied duration in seconds, when
    /// given, is applied verbatim instead of the backoff rule.
    pub fn set_cooldown_with_duration(
        &mut self,
        credential_id: u64,
        reason: CooldownReason,
        custom_duration: Option<u64>,
    ) -> (dur: u64)
        requires
            old(self).wf(),
        ensures
            final(self).wf(),
            final(self).max_short() == old(self).max_short(),
            final(self).long_cooldown() == old(self).long_cooldown(),
            dur == spec_applied_duration(
                reason,
                next_trigger_count(entry_for(old(self).slots(), credential_id), reason),
                custom_duration,
                old(self).max_short(),
                old(self).long_cooldown(),
            ),
            exists|now_ms: u64|
                entry_for(final(self).slots(), credential_id) == Some(
                    spec_new_entry(
                        entry_for(old(self).slots(), credential_id),
                        reason,
                        custom_duration,
                        old(self).max_short(),
                        old(self).long_cooldown(),
                        now_ms,
                    ),
                ),
            forall|other: u64|
                other != credential_id ==> entry_for(final(self).slots(), other) == entry_for(
                    old(self).slots(),
                    other,
                ),
    {
        let now_ms = now_millis();
        let dur = self.set_cooldown_at(credential_id, reason, custom_duration, now_ms);
        proof {
            let chosen_now = now_ms;
            assert(entry_for(self.slots(), credential_id) == Some(
                spec_new_entry(
                    entry_for(old(self).slots(), credential_id),
                    reason,
                    custom_duration,
                    old(self).max_short(),
                    old(self).long_cooldown(),
                    chosen_now,
                ),
            ));
        }
        dur
    }

    /// Reports the reason and remaining milliseconds if `credential_id` is
    /// still cooling at the current clock reading.
    pub fn check_cooldown(&self, credential_id: u64) -> (r: Option<(CooldownReason, u64)>)
        requires
            self.wf(),
        ensures
            exists|now_ms: u64| r == spec_check(self.slots(), credential_id, now_ms),
            entry_for(self.slots(), credential_id) is None ==> r is None,
            r is Some ==> entry_for(self.slots(), credential_id) is Some && (r->Some_0).0
                == (entry_for(self.slots(), credential_id)->Some_0).reason,
    {
        let now_ms = now_millis();
        let r = self.check_cooldown_at(credential_id, now_ms);
        proof {
            assert(r == spec_check(self.slots(), credential_id, now_ms));
        }
        r
    }

    /// Whether `credential_id` may be used at the current clock reading.
    /// An unknown credential always reads as available.
    pub fn is_available(&self, credential_id: u64) -> (r: bool)
        requires
            self.wf(),
        ensures
            exists|now_ms: u64| r == spec_check(self.slots(), credential_id, now_ms) is None,
            !has_slot(self.slots(), credential_id) ==> r,
    {
        let now_ms = now_millis();
        let r = self.is_available_at(credential_id, now_ms);
        proof {
            assert(r == spec_check(self.slots(), credential_id, now_ms) is None);
        }
        r
    }

    /// Drops every entry whose window has ended by the current clock
    /// reading; reports how many were removed.
    pub fn cleanup_expired(&mut self) -> (removed: usize)
        requires
            old(self).wf(),
        ensures
            final(self).wf(),
            final(self).max_short() == old(self).max_short(),
            final(self).long_cooldown() == old(self).long_cooldown(),
            exists|now_ms: u64|
                final(self).slots() == active_slots(old(self).slots(), now_ms) && removed == old(
                    self,
                ).slots().len() - final(self).slots().len(),
    {
        let now_ms = now_millis();
        let removed = self.cleanup_expired_at(now_ms);
        proof {
            assert(self.slots() == active_slots(old(self).slots(), now_ms) && removed == old(
                self,
            ).slots().len() - self.slots().len());
        }
        removed
    }

    /// A snapshot of every credential still cooling at the current clock
    /// reading.
    pub fn get_all_cooldowns(&self) -> (r: Vec<CooldownInfo>)
        requires
            self.wf(),
        ensures
            exists|now_ms: u64|
                r@.len() == active_slots(self.slots(), now_ms).len() && forall|i: int|
                    0 <= i < r@.len() ==> r@[i] == spec_info(
                        active_slots(self.slots(), now_ms)[i],
                        now_ms,
                    ),
    {
        let now_ms = now_millis();
        let r = self.get_all_cooldowns_at(now_ms);
        proof {
            assert(r@.len() == active_slots(self.slots(), now_ms).len() && forall|i: int|
                0 <= i < r@.len() ==> r@[i] == spec_info(
                    active_slots(self.slots(), now_ms)[i],
                    now_ms,
                ));
        }
        r
    }
}

/// Every auto-recoverable reason's default duration is positive, so a
/// default-rule cooldown window is never empty.
pub proof fn lemma_default_duration_positive(reason: CooldownReason)
    ensures
        spec_default_duration(reason) >= 60,
{
}

/// Repeated triggers of the same auto-recoverable reason never decrease
/// the applied duration, and the duration never exceeds the manager's
/// short-cooldown cap.
pub proof fn lemma_cooldown_monotonic(
    reason: CooldownReason,
    count1: u32,
    count2: u32,
    max_short: u64,
    long: u64,
)
    requires
        spec_is_auto_recoverable(reason),
        1 <= count1 <= count2,
    ensures
        spec_applied_duration(reason, count1, None, max_short, long) <= spec_applied_duration(
            reason,
            count2,
            None,
            max_short,
            long,
        ),
        spec_applied_duration(reason, count2, None, max_short, long) <= max_short,
{
    lemma_backoff_monotone(
        spec_default_duration(reason),
        (count1 - 1) as nat,
        (count2 - 1) as nat,
        max_short,
    );
    lemma_backoff_le_cap(spec_default_duration(reason), (count2 - 1) as nat, max_short);
}

/// A non-recoverable reason always applies exactly the manager's long
/// cooldown, whatever the trigger count.
pub proof fn lemma_cooldown_classification(
    reason: CooldownReason,
    count: u32,
    max_short: u64,
    long: u64,
)
    requires
        !spec_is_auto_recoverable(reason),
    ensures
        spec_applied_duration(reason, count, None, max_short, long) == long,
{
}

/// Immediately after a trigger whose applied duration is positive, the
/// credential reads as unavailable at the instant of the trigger; and a
/// credential with no entry always reads as available.
pub proof fn lemma_availability_consistency(
    s: Seq<CooldownSlot>,
    credential_id: u64,
    entry: CooldownEntry,
    dur: u64,
    now_ms: u64,
)
    requires
        entry_for(s, credential_id) == Some(entry),
        entry.expires_at_ms == spec_expiry(now_ms, dur),
        dur >= 1,
        now_ms < u64::MAX,
    ensures
        spec_check(s, credential_id, now_ms) is Some,
        spec_check(s, credential_id, now_ms)->Some_0.0 == entry.reason,
{
    assert(spec_duration_ms(dur) >= 1000 || spec_duration_ms(dur) == u64::MAX);
}

/// A credential without an entry reads as available at every instant.
pub proof fn lemma_cleared_is_available(s: Seq<CooldownSlot>, credential_id: u64, now_ms: u64)
    requires
        entry_for(s, credential_id) == None::<CooldownEntry>,
    ensures
        spec_check(s, credential_id, now_ms) is None,
{
}

/// The default backoff duration is positive whenever the manager's
/// configured windows are, so `set_cooldown` always yields an unavailable
/// credential at the instant of the trigger.
pub proof fn lemma_default_rule_duration_positive(
    reason: CooldownReason,
    count: u32,
    max_short: u64,
    long: u64,
)
    requires
        count >= 1,
        max_short >= 1,
        long >= 1,
    ensures
        spec_applied_duration(reason, count, None, max_short, long) >= 1,
{
    if spec_is_auto_recoverable(reason) {
        lemma_default_duration_positive(reason);
        lemma_backoff_positive(spec_default_duration(reason), (count - 1) as nat, max_short);
    }
}

/// One more trigger of the same auto-recoverable reason never shortens
/// the applied duration: the stored trigger count only grows.
pub proof fn lemma_repeat_trigger_monotonic(
    prev: CooldownEntry,
    reason: CooldownReason,
    max_short: u64,
    long: u64,
)
    requires
        spec_is_auto_recoverable(reason),
        prev.reason == reason,
        prev.trigger_count >= 1,
    ensures
        spec_applied_duration(
            reason,
            next_trigger_count(Some(prev), reason),
            None,
            max_short,
            long,
        ) >= spec_applied_duration(reason, prev.trigger_count, None, max_short, long),
{
    lemma_cooldown_monotonic(
        reason,
        prev.trigger_count,
        next_trigger_count(Some(prev), reason),
        max_short,
        long,
    );
}

/// Extending the scanned prefix by one slot extends its active subsequence
/// by that slot exactly when the slot is still cooling.
proof fn lemma_active_slots_push(s: Seq<CooldownSlot>, x: CooldownSlot, now: u64)
    ensures
        active_slots(s.push(x), now) == if now < x.entry.expires_at_ms {
            active_slots(s, now).push(x)
        } else {
            active_slots(s, now)
        },
    decreases s.len(),
{
    let p = s.push(x);
    if s.len() == 0 {
        assert(p[0] == x);
        assert(p.drop_first() =~= Seq::<CooldownSlot>::empty());
        assert(active_slots(s, now) == Seq::<CooldownSlot>::empty());
        assert(active_slots(p.drop_first(), now) == Seq::<CooldownSlot>::empty());
        if now < x.entry.expires_at_ms {
            assert(active_slots(p, now) == seq![x] + active_slots(p.drop_first(), now));
            assert(seq![x] + Seq::<CooldownSlot>::empty() =~= active_slots(s, now).push(x));
            assert(active_slots(p, now) == active_slots(s, now).push(x));
        } else {
            assert(active_slots(p, now) == active_slots(p.drop_first(), now));
            assert(active_slots(p, now) == active_slots(s, now));
        }
    } else {
        assert(p[0] == s[0]);
        assert(p.drop_first() =~= s.drop_first().push(x));
        lemma_active_slots_push(s.drop_first(), x, now);
        let tail_active = active_slots(s.drop_first(), now);
        if now < x.entry.expires_at_ms {
            assert(active_slots(p.drop_first(), now) == tail_active.push(x));
            if now < s[0].entry.expires_at_ms {
                assert(active_slots(p, now) == seq![s[0]] + tail_active.push(x));
                assert(active_slots(s, now) == seq![s[0]] + tail_active);
                assert(seq![s[0]] + tail_active.push(x) =~= (seq![s[0]] + tail_active).push(x));
                assert(active_slots(p, now) == active_slots(s, now).push(x));
            } else {
                assert(active_slots(p, now) == tail_active.push(x));
                assert(active_slots(s, now) == tail_active);
                assert(active_slots(p, now) == active_slots(s, now).push(x));
            }
        } else {
            assert(active_slots(p.drop_first(), now) == tail_active);
            if now < s[0].entry.expires_at_ms {
                assert(active_slots(p, now) == seq![s[0]] + tail_active);
                assert(active_slots(s, now) == seq![s[0]] + tail_active);
            } else {
                assert(active_slots(p, now) == tail_active);
                assert(active_slots(s, now) == tail_active);
            }
        }
    }
}

proof fn lemma_active_slots_take_step(s: Seq<CooldownSlot>, now: u64, i: int)
    requires
        0 <= i < s.len(),
    ensures
        active_slots(s.take(i + 1), now) == if now < s[i].entry.expires_at_ms {
            active_slots(s.take(i), now).push(s[i])
        } else {
            active_slots(s.take(i), now)
        },
{
    assert(s.take(i + 1) =~= s.take(i).push(s[i]));
    lemma_active_slots_push(s.take(i), s[i], now);
}

} // verus!

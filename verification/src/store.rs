//! The reminder store: the single point of truth mapping each chat to the
//! ordered list of its timers. Entries keep registration order — chats in
//! the order first seen, timers per chat in the order added — and no chat
//! appears twice.
use vstd::prelude::*;
use crate::timer::{Timer, TimerModel, timer_model_wf};

verus! {

/// Mathematical image of the store: the chats in order, each with its
/// timers in order.
pub type StoreModel = Seq<(i64, Seq<TimerModel>)>;

/// The timers of a sequence, as their models.
pub open spec fn timers_view(ts: Seq<Timer>) -> Seq<TimerModel> {
    ts.map_values(|t: Timer| t@)
}

/// The chat identifiers of a store model, in store order.
pub open spec fn chat_ids(v: StoreModel) -> Seq<i64> {
    v.map_values(|e: (i64, Seq<TimerModel>)| e.0)
}

/// Whether the store model has an entry for `chat`.
pub open spec fn has_chat(v: StoreModel, chat: i64) -> bool {
    exists|i: int| 0 <= i < v.len() && v[i].0 == chat
}

/// The timers registered for `chat`; the empty sequence if the chat is
/// unknown.
pub open spec fn timers_of(v: StoreModel, chat: i64) -> Seq<TimerModel> {
    if has_chat(v, chat) {
        v[choose|i: int| 0 <= i < v.len() && v[i].0 == chat].1
    } else {
        Seq::empty()
    }
}

/// No chat appears twice in the store model.
pub open spec fn chats_unique(v: StoreModel) -> bool {
    forall|i: int, j: int| 0 <= i < j < v.len() ==> v[i].0 != v[j].0
}

/// A well-formed store model: no chat appears twice, and every timer is
/// well formed.
pub open spec fn store_model_wf(v: StoreModel) -> bool {
    &&& chats_unique(v)
    &&& forall|i: int, k: int|
        0 <= i < v.len() && 0 <= k < v[i].1.len() ==> timer_model_wf(#[trigger] v[i].1[k])
}

/// When no chat appears twice, the entry at any index holding `chat` is the
/// entry `timers_of` speaks of.
pub proof fn lemma_timers_of_at(v: StoreModel, chat: i64, i: int)
    requires
        chats_unique(v),
        0 <= i < v.len(),
        v[i].0 == chat,
    ensures
        timers_of(v, chat) == v[i].1,
{
    let j = choose|j: int| 0 <= j < v.len() && v[j].0 == chat;
    if i != j {
        assert(v[i].0 != v[j].0);
    }
}

/// The store model after appending `tm` to `chat`'s list: a known chat
/// keeps its place and gains the timer at the end of its list; a new chat
/// is added at the end of the store.
pub open spec fn store_after_add(v: StoreModel, chat: i64, tm: TimerModel) -> StoreModel {
    if has_chat(v, chat) {
        Seq::new(
            v.len(),
            |i: int|
                if v[i].0 == chat {
                    (chat, v[i].1.push(tm))
                } else {
                    v[i]
                },
        )
    } else {
        v.push((chat, seq![tm]))
    }
}

/// The model of a raw entry list.
pub open spec fn entries_view(es: Seq<(i64, Vec<Timer>)>) -> StoreModel {
    es.map_values(|e: (i64, Vec<Timer>)| (e.0, timers_view(e.1@)))
}

/// The reminder store: each chat with its ordered list of timers.
pub struct Store {
    entries: Vec<(i64, Vec<Timer>)>,
}

impl View for Store {
    type V = StoreModel;

    closed spec fn view(&self) -> StoreModel {
        entries_view(self.entries@)
    }
}

impl Store {
    /// The store's model is well formed.
    pub open spec fn wf(self) -> bool {
        store_model_wf(self@)
    }

    /// An empty store: no chats, no timers.
    pub fn new() -> (r: Store)
        ensures
            r@ == StoreModel::empty(),
            r.wf(),
    {
        let r = Store { entries: Vec::new() };
        proof {
            assert(r@ =~= StoreModel::empty());
        }
        r
    }

    /// Index of the entry for `chat`, if the store has one.
    fn find_chat(&self, chat: i64) -> (r: Option<usize>)
        ensures
            match r {
                Some(i) => i < self@.len() && self@[i as int].0 == chat,
                None => !has_chat(self@, chat),
            },
    {
        let n = self.entries.len();
        let mut i: usize = 0;
        while i < n
            invariant
                n == self.entries.len(),
                i <= n,
                forall|k: int| 0 <= k < i ==> self@[k].0 != chat,
            decreases n - i,
        {
            if self.entries[i].0 == chat {
                return Some(i);
            }
            i = i + 1;
        }
        None
    }

    /// Append `timer` to `chat`'s list, creating the chat's entry at the end
    /// of the store if the chat is new. Nothing else changes: every other
    /// chat keeps its timers, and the chat order is kept (with a new chat
    /// added last).
    pub fn add_timer(&mut self, chat: i64, timer: Timer)
        requires
            old(self).wf(),
            timer.wf(),
        ensures
            final(self).wf(),
            timers_of(final(self)@, chat) == timers_of(old(self)@, chat).push(timer@),
            forall|c: i64|
                c != chat ==> timers_of(final(self)@, c) == timers_of(old(self)@, c),
            chat_ids(final(self)@) == if has_chat(old(self)@, chat) {
                chat_ids(old(self)@)
            } else {
                chat_ids(old(self)@).push(chat)
            },
            has_chat(final(self)@, chat),
            final(self)@ == store_after_add(old(self)@, chat, timer@),
    {
        let ghost v0 = self@;
        match self.find_chat(chat) {
            Some(i) => {
                let ghost gi = i as int;
                let mut entry = self.entries.remove(i);
                entry.1.push(timer);
                self.entries.insert(i, entry);
                proof {
                    assert(self@ =~= v0.update(gi, (chat, v0[gi].1.push(timer@)))) by {
                        assert(timers_view(entry.1@) =~= v0[gi].1.push(timer@));
                        assert forall|k: int| 0 <= k < self@.len() implies self@[k] == v0.update(
                            gi,
                            (chat, v0[gi].1.push(timer@)),
                        )[k] by {}
                    }
                    lemma_timers_of_at(v0, chat, gi);
                    lemma_timers_of_at(self@, chat, gi);
                    assert(self@ =~= store_after_add(v0, chat, timer@)) by {
                        assert forall|k: int| 0 <= k < v0.len() && k != gi implies v0[k].0
                            != chat by {}
                    }
                    assert(chat_ids(self@) =~= chat_ids(v0));
                    assert forall|c: i64| c != chat implies timers_of(self@, c) == timers_of(
                        v0,
                        c,
                    ) by {
                        if has_chat(self@, c) {
                            let j = choose|j: int| 0 <= j < self@.len() && self@[j].0 == c;
                            assert(v0[j].0 == c);
                            lemma_timers_of_at(self@, c, j);
                            lemma_timers_of_at(v0, c, j);
                        } else {
                            if has_chat(v0, c) {
                                let j = choose|j: int| 0 <= j < v0.len() && v0[j].0 == c;
                                assert(self@[j].0 == c);
                            }
                        }
                    }
                }
            },
            None => {
                let mut ts: Vec<Timer> = Vec::new();
                ts.push(timer);
                self.entries.push((chat, ts));
                proof {
                    assert(self@ =~= v0.push((chat, seq![timer@]))) by {
                        assert(timers_view(ts@) =~= seq![timer@]);
                        assert forall|k: int| 0 <= k < self@.len() implies self@[k] == v0.push(
                            (chat, seq![timer@]),
                        )[k] by {}
                    }
                    let n = v0.len() as int;
                    assert(self@[n].0 == chat);
                    lemma_timers_of_at(self@, chat, n);
                    assert(timers_of(v0, chat) == Seq::<TimerModel>::empty());
                    assert(timers_of(self@, chat) =~= timers_of(v0, chat).push(timer@));
                    assert(self@ =~= store_after_add(v0, chat, timer@));
                    assert(chat_ids(self@) =~= chat_ids(v0).push(chat));
                    assert forall|c: i64| c != chat implies timers_of(self@, c) == timers_of(
                        v0,
                        c,
                    ) by {
                        if has_chat(self@, c) {
                            let j = choose|j: int| 0 <= j < self@.len() && self@[j].0 == c;
                            assert(j < n);
                            assert(v0[j].0 == c);
                            lemma_timers_of_at(self@, c, j);
                            lemma_timers_of_at(v0, c, j);
                        } else {
                            if has_chat(v0, c) {
                                let j = choose|j: int| 0 <= j < v0.len() && v0[j].0 == c;
                                assert(self@[j].0 == c);
                            }
                        }
                    }
                }
            },
        }
    }

    /// A read-only snapshot of `chat`'s timers, in registration order; empty
    /// if the chat is unknown.
    pub fn get_timers(&self, chat: i64) -> (r: Vec<Timer>)
        requires
            self.wf(),
        ensures
            timers_view(r@) == timers_of(self@, chat),
    {
        match self.find_chat(chat) {
            Some(i) => {
                proof {
                    lemma_timers_of_at(self@, chat, i as int);
                }
                let ts = &self.entries[i].1;
                let n = ts.len();
                let mut r: Vec<Timer> = Vec::new();
                let mut k: usize = 0;
                while k < n
                    invariant
                        n == ts.len(),
                        k <= n,
                        r@.len() == k,
                        forall|j: int| 0 <= j < k ==> r@[j] == ts@[j],
                    decreases n - k,
                {
                    r.push(ts[k].duplicate());
                    k = k + 1;
                }
                proof {
                    assert(timers_view(r@) =~= timers_view(ts@));
                }
                r
            },
            None => {
                proof {
                    assert(timers_view(Seq::<Timer>::empty()) =~= Seq::<TimerModel>::empty());
                }
                Vec::new()
            },
        }
    }

    /// Number of chats in the store.
    pub fn chat_count(&self) -> (r: usize)
        ensures
            r == self@.len(),
    {
        self.entries.len()
    }

    /// The entry at position `i` of the store: the chat and its timers.
    pub(crate) fn entry_at(&self, i: usize) -> (r: &(i64, Vec<Timer>))
        requires
            i < self@.len(),
        ensures
            r.0 == self@[i as int].0,
            timers_view(r.1@) == self@[i as int].1,
    {
        &self.entries[i]
    }

    /// A store holding exactly these entries.
    pub(crate) fn from_entries(entries: Vec<(i64, Vec<Timer>)>) -> (r: Store)
        ensures
            r@ == entries_view(entries@),
    {
        Store { entries }
    }

    /// One evaluation pass of the scheduler at instant `now`: every timer of
    /// every chat is evaluated once, in store order; each due timer has its
    /// last-firing instant stamped to `now` and contributes one dispatch —
    /// the chat identifier and the rendered message — to the returned list,
    /// in evaluation order. Timers that are not due are untouched.
    pub fn tick(&mut self, now: i64) -> (out: Vec<(i64, String)>)
        requires
            old(self).wf(),
            crate::valid_instant(now as int),
        ensures
            final(self).wf(),
            final(self)@ == crate::sched::store_after_tick(old(self)@, now as int),
            crate::sched::out_view(out@) == crate::sched::dispatches_of(old(self)@, now as int),
    {
        let ghost v0 = self@;
        let ghost gnow = now as int;
        let n = self.entries.len();
        let mut new_entries: Vec<(i64, Vec<Timer>)> = Vec::new();
        let mut out: Vec<(i64, String)> = Vec::new();
        let mut i: usize = 0;
        proof {
            assert(crate::sched::out_view(out@) =~= crate::sched::dispatches_of(
                v0.take(0),
                gnow,
            ));
            assert(entries_view(new_entries@) =~= crate::sched::store_after_tick(v0, gnow).take(
                0,
            ));
        }
        while i < n
            invariant
                self@ == v0,
                self.wf(),
                crate::valid_instant(gnow),
                gnow == now as int,
                n == self.entries.len(),
                v0.len() == n,
                i <= n,
                entries_view(new_entries@) == crate::sched::store_after_tick(v0, gnow).take(
                    i as int,
                ),
                crate::sched::out_view(out@) == crate::sched::dispatches_of(
                    v0.take(i as int),
                    gnow,
                ),
            decreases n - i,
        {
            let chat = self.entries[i].0;
            let ts = &self.entries[i].1;
            let ghost tsv = timers_view(ts@);
            proof {
                assert(v0[i as int] == (chat, tsv));
            }
            let m = ts.len();
            let mut new_ts: Vec<Timer> = Vec::new();
            let mut j: usize = 0;
            proof {
                assert(timers_view(new_ts@) =~= crate::sched::timers_after(tsv, gnow).take(0));
                assert(tsv.take(0) =~= Seq::<TimerModel>::empty());
            }
            while j < m
                invariant
                    self@ == v0,
                    self.wf(),
                    crate::valid_instant(gnow),
                    gnow == now as int,
                    i < n,
                    n == self.entries.len(),
                    v0.len() == n,
                    ts == &self.entries[i as int].1,
                    chat == self.entries[i as int].0,
                    tsv == timers_view(ts@),
                    v0[i as int] == (chat, tsv),
                    m == ts.len(),
                    j <= m,
                    timers_view(new_ts@) == crate::sched::timers_after(tsv, gnow).take(j as int),
                    crate::sched::out_view(out@) == crate::sched::dispatches_of(
                        v0.take(i as int),
                        gnow,
                    ) + crate::sched::disp_of_timers(chat, tsv.take(j as int), gnow),
                decreases m - j,
            {
                let ghost gj = j as int;
                let t = &ts[j];
                proof {
                    assert(t@ == tsv[gj]);
                    assert(timer_model_wf(t@)) by {
                        assert(timer_model_wf(v0[i as int].1[gj]));
                    }
                    assert(tsv.take(gj + 1).drop_last() =~= tsv.take(gj));
                    assert(tsv.take(gj + 1).last() == tsv[gj]);
                }
                let ghost dprev = crate::sched::dispatches_of(v0.take(i as int), gnow)
                    + crate::sched::disp_of_timers(chat, tsv.take(gj), gnow);
                let ghost dgoal = crate::sched::dispatches_of(v0.take(i as int), gnow)
                    + crate::sched::disp_of_timers(chat, tsv.take(gj + 1), gnow);
                let due = crate::sched::is_due_at(t, now);
                if due {
                    let rendered = crate::sched::render_message(&t.name, &t.msg);
                    let ghost out_pre = out@;
                    out.push((chat, rendered));
                    proof {
                        let elt = (chat, crate::sched::render_msg(tsv[gj].name, tsv[gj].msg));
                        assert(out@ == out_pre.push((chat, rendered)));
                        assert forall|k: int| 0 <= k < out@.len() implies crate::sched::out_view(
                            out@,
                        )[k] == (dprev + seq![elt])[k] by {
                            if k < out_pre.len() {
                                assert(out@[k] == out_pre[k]);
                            }
                        }
                        assert(crate::sched::out_view(out@) =~= dprev + seq![elt]);
                        assert(crate::sched::disp_of_timers(chat, tsv.take(gj + 1), gnow)
                            == crate::sched::disp_of_timers(chat, tsv.take(gj), gnow) + seq![elt]);
                        assert(dprev + seq![elt] =~= dgoal);
                    }
                } else {
                    proof {
                        assert(crate::sched::disp_of_timers(chat, tsv.take(gj + 1), gnow)
                            =~= crate::sched::disp_of_timers(chat, tsv.take(gj), gnow));
                        assert(crate::sched::out_view(out@) == dgoal);
                    }
                }
                let nt = Timer {
                    name: t.name.clone(),
                    msg: t.msg.clone(),
                    week_day: t.week_day,
                    time: t.time,
                    last_time: if due {
                        Some(now)
                    } else {
                        t.last_time
                    },
                };
                proof {
                    assert(nt@ == crate::sched::timer_after(tsv[gj], gnow));
                }
                let ghost ts_pre = new_ts@;
                new_ts.push(nt);
                proof {
                    assert(new_ts@ == ts_pre.push(nt));
                    assert(ts_pre.len() == gj) by {
                        assert(timers_view(ts_pre).len() == ts_pre.len());
                    }
                    assert forall|k: int| 0 <= k < gj + 1 implies timers_view(new_ts@)[k]
                        == crate::sched::timers_after(tsv, gnow).take(gj + 1)[k] by {
                        if k < gj {
                            assert(new_ts@[k] == ts_pre[k]);
                            assert(timers_view(ts_pre)[k] == crate::sched::timers_after(
                                tsv,
                                gnow,
                            ).take(gj)[k]);
                        }
                    }
                    assert(timers_view(new_ts@) =~= crate::sched::timers_after(tsv, gnow).take(
                        gj + 1,
                    ));
                }
                j = j + 1;
            }
            let ghost ne_pre = new_entries@;
            new_entries.push((chat, new_ts));
            proof {
                let gi = i as int;
                assert(tsv.take(m as int) =~= tsv);
                assert(crate::sched::timers_after(tsv, gnow).take(m as int)
                    =~= crate::sched::timers_after(tsv, gnow));
                assert(ne_pre.len() == gi) by {
                    assert(entries_view(ne_pre).len() == ne_pre.len());
                }
                assert forall|k: int| 0 <= k < gi + 1 implies entries_view(new_entries@)[k]
                    == crate::sched::store_after_tick(v0, gnow).take(gi + 1)[k] by {
                    if k < gi {
                        assert(new_entries@[k] == ne_pre[k]);
                        assert(entries_view(ne_pre)[k] == crate::sched::store_after_tick(
                            v0,
                            gnow,
                        ).take(gi)[k]);
                    } else {
                        assert(new_entries@[k] == (chat, new_ts));
                    }
                }
                assert(entries_view(new_entries@) =~= crate::sched::store_after_tick(
                    v0,
                    gnow,
                ).take(gi + 1));
                assert(v0.take(gi + 1).drop_last() =~= v0.take(gi));
                assert(v0.take(gi + 1).last() == v0[gi]);
                assert(crate::sched::out_view(out@) =~= crate::sched::dispatches_of(
                    v0.take(gi + 1),
                    gnow,
                ));
            }
            i = i + 1;
        }
        self.entries = new_entries;
        proof {
            assert(v0.take(n as int) =~= v0);
            assert(crate::sched::store_after_tick(v0, gnow).take(n as int)
                =~= crate::sched::store_after_tick(v0, gnow));
            lemma_store_after_tick_wf(v0, gnow);
        }
        out
    }
}

/// One evaluation pass keeps the store well formed: the chats are unchanged
/// and a stamped last-firing instant is a schedulable instant.
pub proof fn lemma_store_after_tick_wf(v: StoreModel, now: int)
    requires
        store_model_wf(v),
        crate::valid_instant(now),
    ensures
        store_model_wf(crate::sched::store_after_tick(v, now)),
{
    let w = crate::sched::store_after_tick(v, now);
    assert forall|i: int, k: int|
        0 <= i < w.len() && 0 <= k < w[i].1.len() implies timer_model_wf(
        #[trigger] w[i].1[k],
    ) by {
        assert(timer_model_wf(v[i].1[k]));
        assert(w[i].1[k] == crate::sched::timer_after(v[i].1[k], now));
    }
}

/// One evaluation pass acts on each chat's timers independently: per chat,
/// the pass maps the timer list through one evaluation each.
pub proof fn lemma_tick_timers_of(v: StoreModel, now: int, chat: i64)
    requires
        chats_unique(v),
    ensures
        timers_of(crate::sched::store_after_tick(v, now), chat) == crate::sched::timers_after(
            timers_of(v, chat),
            now,
        ),
{
    let w = crate::sched::store_after_tick(v, now);
    if has_chat(v, chat) {
        let i = choose|i: int| 0 <= i < v.len() && v[i].0 == chat;
        assert(w[i].0 == chat);
        lemma_timers_of_at(v, chat, i);
        lemma_timers_of_at(w, chat, i);
    } else {
        if has_chat(w, chat) {
            let i = choose|i: int| 0 <= i < w.len() && w[i].0 == chat;
            assert(v[i].0 == chat);
        }
        assert(timers_of(w, chat) =~= crate::sched::timers_after(timers_of(v, chat), now));
    }
}

/// No lost updates: when a scheduler pass stamps dedup instants and a timer
/// is appended for some chat — in either linearization order the store lock
/// allows — both changes stand in the resulting store. The appended timer
/// ends `chat`'s list, whose earlier timers carry the pass's stamps, and
/// every other chat's list carries exactly the pass's stamps.
pub proof fn lemma_no_lost_updates(v: StoreModel, now: int, chat: i64, tm: TimerModel)
    requires
        chats_unique(v),
    ensures
        timers_of(store_after_add(crate::sched::store_after_tick(v, now), chat, tm), chat)
            == crate::sched::timers_after(timers_of(v, chat), now).push(tm),
        forall|c: i64|
            c != chat ==> timers_of(
                store_after_add(crate::sched::store_after_tick(v, now), chat, tm),
                c,
            ) == crate::sched::timers_after(timers_of(v, c), now),
{
    let w = crate::sched::store_after_tick(v, now);
    let u = store_after_add(w, chat, tm);
    assert(chats_unique(w)) by {
        assert forall|i: int, j: int| 0 <= i < j < w.len() implies w[i].0 != w[j].0 by {
            assert(w[i].0 == v[i].0 && w[j].0 == v[j].0);
        }
    }
    lemma_tick_timers_of(v, now, chat);
    lemma_add_timers_of(w, chat, tm);
    assert forall|c: i64| c != chat implies timers_of(u, c) == crate::sched::timers_after(
        timers_of(v, c),
        now,
    ) by {
        lemma_tick_timers_of(v, now, c);
    }
}

/// Appending a timer changes only the chat appended to: its list gains the
/// timer at the end, every other list is untouched.
pub proof fn lemma_add_timers_of(v: StoreModel, chat: i64, tm: TimerModel)
    requires
        chats_unique(v),
    ensures
        timers_of(store_after_add(v, chat, tm), chat) == timers_of(v, chat).push(tm),
        forall|c: i64|
            c != chat ==> timers_of(store_after_add(v, chat, tm), c) == timers_of(v, c),
{
    let u = store_after_add(v, chat, tm);
    assert(chats_unique(u)) by {
        if has_chat(v, chat) {
            assert forall|i: int, j: int| 0 <= i < j < u.len() implies u[i].0 != u[j].0 by {
                assert(u[i].0 == v[i].0 && u[j].0 == v[j].0);
            }
        } else {
            assert forall|i: int, j: int| 0 <= i < j < u.len() implies u[i].0 != u[j].0 by {
                if j < v.len() {
                    assert(u[i].0 == v[i].0 && u[j].0 == v[j].0);
                } else {
                    assert(u[j].0 == chat && u[i].0 == v[i].0);
                }
            }
        }
    }
    if has_chat(v, chat) {
        let i = choose|i: int| 0 <= i < v.len() && v[i].0 == chat;
        assert(u[i].0 == chat);
        lemma_timers_of_at(v, chat, i);
        lemma_timers_of_at(u, chat, i);
    } else {
        let ni = v.len() as int;
        assert(u[ni].0 == chat);
        lemma_timers_of_at(u, chat, ni);
        assert(timers_of(u, chat) =~= timers_of(v, chat).push(tm));
    }
    assert forall|c: i64| c != chat implies timers_of(u, c) == timers_of(v, c) by {
        if has_chat(v, c) {
            let i = choose|i: int| 0 <= i < v.len() && v[i].0 == c;
            assert(u[i].0 == c);
            lemma_timers_of_at(v, c, i);
            lemma_timers_of_at(u, c, i);
        } else {
            if has_chat(u, c) {
                let i = choose|i: int| 0 <= i < u.len() && u[i].0 == c;
                if i < v.len() {
                    assert(v[i].0 == c);
                } else {
                    assert(u[i].0 == chat);
                }
            }
        }
    }
}

} // verus!

//! The oracle's state: the registered keys, the submitters that count, the
//! histories they have filled and the values published so far.

use vstd::prelude::*;
use crate::aggregate::{
    aggregate, aggregated, lemma_numbers_of_concat, lemma_repeated, lemma_total_concat, numbers_of,
    total,
};
use crate::fixed::saturated;
use crate::error::OracleError;
use crate::ring::{pushed, RingBuffer, RING_BUF_LEN};
use crate::table::{
    copy_bytes, key_views, lemma_index_of, lemma_push_distinct, lemma_remove_distinct, position,
    Table,
};
use crate::value::{Info, NumberType, Operations, PrimitiveOracleType};

verus! {

/// The mathematical content of an [`Oracle`].
pub struct OracleView {
    /// The registered keys in the order of their registration.
    pub keys: Seq<Seq<u8>>,
    /// The settings of each registered key.
    pub infos: Map<Seq<u8>, Info>,
    /// The submitters whose values count, in the order in which they were
    /// added.
    pub providers: Seq<Seq<u8>>,
    /// Where the values of a key are fetched from.
    pub urls: Map<Seq<u8>, Seq<u8>>,
    /// The history of each submitter under each key, by key and submitter.
    pub feeds: Map<(Seq<u8>, Seq<u8>), Seq<PrimitiveOracleType>>,
    /// The value published under each key.
    pub values: Map<Seq<u8>, PrimitiveOracleType>,
}

/// The values that `providers` hold under `key`, submitter after submitter
/// and each history from newest to oldest.
pub open spec fn gathered(
    providers: Seq<Seq<u8>>,
    key: Seq<u8>,
    feeds: Map<(Seq<u8>, Seq<u8>), Seq<PrimitiveOracleType>>,
) -> Seq<PrimitiveOracleType>
    decreases providers.len(),
{
    if providers.len() == 0 {
        Seq::empty()
    } else if feeds.contains_key((key, providers.last())) {
        gathered(providers.drop_last(), key, feeds) + feeds[(key, providers.last())]
    } else {
        gathered(providers.drop_last(), key, feeds)
    }
}

/// `keys` without `key`.
pub open spec fn without(keys: Seq<Seq<u8>>, key: Seq<u8>) -> Seq<Seq<u8>> {
    if keys.contains(key) {
        keys.remove(keys.index_of(key))
    } else {
        keys
    }
}

/// The pairs of a key and a submitter whose key is in `keys`.
pub open spec fn under(keys: Set<Seq<u8>>) -> Set<(Seq<u8>, Seq<u8>)> {
    Set::new(|p: (Seq<u8>, Seq<u8>)| keys.contains(p.0))
}

impl OracleView {
    /// What a state must satisfy: no key and no submitter is listed twice,
    /// exactly the listed keys have settings, no key is settled every zero
    /// ticks, and every history is full.
    pub open spec fn valid(self) -> bool {
        &&& self.keys.no_duplicates()
        &&& self.providers.no_duplicates()
        &&& forall|k: Seq<u8>| self.infos.contains_key(k) <==> self.keys.contains(k)
        &&& forall|k: Seq<u8>| self.infos.contains_key(k) ==> (#[trigger] self.infos[k]).schedule != 0
        &&& forall|p: (Seq<u8>, Seq<u8>)|
            self.feeds.contains_key(p) ==> (#[trigger] self.feeds[p]).len() == RING_BUF_LEN
    }

    /// Whether `key` is settled at tick `n`.
    pub open spec fn due(self, key: Seq<u8>, n: u64) -> bool {
        self.infos.contains_key(key) && self.infos[key].schedule != 0 && n
            % self.infos[key].schedule == 0
    }

    /// The test whether a key is settled at tick `n`.
    pub open spec fn is_due(self, n: u64) -> spec_fn(Seq<u8>) -> bool {
        |key: Seq<u8>| self.due(key, n)
    }

    /// The keys that are settled at tick `n`, in the order of their
    /// registration.
    pub open spec fn due_keys(self, n: u64) -> Seq<Seq<u8>> {
        self.keys.filter(self.is_due(n))
    }

    /// The values that count under `key`: those of the submitters listed now.
    pub open spec fn collected(self, key: Seq<u8>) -> Seq<PrimitiveOracleType> {
        gathered(self.providers, key, self.feeds)
    }

    /// The state after `key` is settled as a key of representation `kind`
    /// and operation `op`: every history under `key` is gone, those of
    /// unlisted submitters too, and the value published under `key` is what
    /// the values that count reduce to.
    pub open spec fn settled(self, key: Seq<u8>, kind: NumberType, op: Operations) -> OracleView {
        OracleView {
            feeds: self.feeds.remove_keys(under(set![key])),
            values: self.values.insert(key, aggregated(self.collected(key), kind, op)),
            ..self
        }
    }

    /// The state after each key in `which` is settled by its own settings.
    pub open spec fn settled_all(self, which: Set<Seq<u8>>) -> OracleView {
        OracleView {
            feeds: self.feeds.remove_keys(under(which)),
            values: Map::new(
                |k: Seq<u8>| self.values.contains_key(k) || which.contains(k),
                |k: Seq<u8>|
                    if which.contains(k) {
                        aggregated(
                            self.collected(k),
                            self.infos[k].number_type,
                            self.infos[k].operation,
                        )
                    } else {
                        self.values[k]
                    },
            ),
            ..self
        }
    }

    /// The state after tick `n`: every key that is due is settled.
    pub open spec fn ticked(self, n: u64) -> OracleView {
        self.settled_all(Set::new(|k: Seq<u8>| self.due(k, n)))
    }

    /// The history of `who` under `key` after `who` has submitted `value`:
    /// a first value fills every slot, a later one becomes the newest and
    /// the oldest is dropped.
    pub open spec fn fed(self, who: Seq<u8>, key: Seq<u8>, value: PrimitiveOracleType) -> Seq<
        PrimitiveOracleType,
    > {
        if self.feeds.contains_key((key, who)) {
            pushed(self.feeds[(key, who)], value)
        } else {
            Seq::new(RING_BUF_LEN as nat, |i: int| value)
        }
    }

    /// Registering `key` with the settings `info`: refused with a schedule
    /// of zero, and then where `key` is registered already.
    pub open spec fn registered(self, key: Seq<u8>, info: Info) -> Result<OracleView, OracleError> {
        if info.schedule == 0 {
            Err(OracleError::InvalidPeriod)
        } else if self.infos.contains_key(key) {
            Err(OracleError::DuplicateKey)
        } else {
            Ok(OracleView { keys: self.keys.push(key), infos: self.infos.insert(key, info), ..self })
        }
    }

    /// The state without `key`, its settings and the histories under it.
    pub open spec fn unregistered(self, key: Seq<u8>) -> OracleView {
        OracleView {
            keys: without(self.keys, key),
            infos: self.infos.remove(key),
            feeds: self.feeds.remove_keys(under(set![key])),
            ..self
        }
    }

    /// `who` submitting `value` under `key`: refused where `key` is not
    /// registered, and then where `value` has another representation than
    /// the key's settings ask for.
    pub open spec fn submitted(self, who: Seq<u8>, key: Seq<u8>, value: PrimitiveOracleType) -> Result<
        OracleView,
        OracleError,
    > {
        if !self.infos.contains_key(key) {
            Err(OracleError::UnknownKey)
        } else if value.kind() != self.infos[key].number_type {
            Err(OracleError::KindMismatch)
        } else {
            Ok(OracleView { feeds: self.feeds.insert((key, who), self.fed(who, key, value)), ..self })
        }
    }
}

/// The histories held in nested tables, by key and submitter.
pub open spec fn feeds_view(feeds: Map<Seq<u8>, Table<RingBuffer>>) -> Map<
    (Seq<u8>, Seq<u8>),
    Seq<PrimitiveOracleType>,
> {
    Map::new(
        |p: (Seq<u8>, Seq<u8>)| feeds.contains_key(p.0) && feeds[p.0]@.contains_key(p.1),
        |p: (Seq<u8>, Seq<u8>)| feeds[p.0]@[p.1]@,
    )
}

/// The notice that a submission was recorded: who submitted which value
/// under which key.
#[derive(Clone, Debug, PartialEq, Eq)]
pub struct NewData {
    pub who: Vec<u8>,
    pub key: Vec<u8>,
    pub value: PrimitiveOracleType,
}

/// The oracle's state.
pub struct Oracle {
    infos: Table<Info>,
    providers: Vec<Vec<u8>>,
    urls: Table<Vec<u8>>,
    feeds: Table<Table<RingBuffer>>,
    values: Table<PrimitiveOracleType>,
}

impl View for Oracle {
    type V = OracleView;

    closed spec fn view(&self) -> OracleView {
        OracleView {
            keys: self.infos.keys(),
            infos: self.infos@,
            providers: key_views(self.providers@),
            urls: self.urls@.map_values(|u: Vec<u8>| u@),
            feeds: feeds_view(self.feeds@),
            values: self.values@,
        }
    }
}

impl Oracle {
    /// What every operation keeps: the tables are in order and the content
    /// is [`OracleView::valid`].
    pub closed spec fn wf(&self) -> bool {
        &&& self.infos.wf()
        &&& self.urls.wf()
        &&& self.feeds.wf()
        &&& self.values.wf()
        &&& key_views(self.providers@).no_duplicates()
        &&& forall|k: Seq<u8>| self.infos@.contains_key(k) ==> (#[trigger] self.infos@[k]).schedule != 0
        &&& forall|k: Seq<u8>| self.feeds@.contains_key(k) ==> (#[trigger] self.feeds@[k]).wf()
    }

    /// A state in order has valid content.
    pub proof fn lemma_valid(&self)
        requires
            self.wf(),
        ensures
            self@.valid(),
    {
        self.infos.lemma_entries();
        assert forall|p: (Seq<u8>, Seq<u8>)| self@.feeds.contains_key(p) implies (
        #[trigger] self@.feeds[p]).len() == RING_BUF_LEN by {
            crate::ring::lemma_ring_len(self.feeds@[p.0]@[p.1]);
        }
    }

    /// An oracle without keys, submitters, histories or values.
    pub fn new() -> (r: Self)
        ensures
            r.wf(),
            r@.keys == Seq::<Seq<u8>>::empty(),
            r@.infos == Map::<Seq<u8>, Info>::empty(),
            r@.providers == Seq::<Seq<u8>>::empty(),
            r@.urls == Map::<Seq<u8>, Seq<u8>>::empty(),
            r@.feeds == Map::<(Seq<u8>, Seq<u8>), Seq<PrimitiveOracleType>>::empty(),
            r@.values == Map::<Seq<u8>, PrimitiveOracleType>::empty(),
    {
        let r = Oracle {
            infos: Table::new(),
            providers: Vec::new(),
            urls: Table::new(),
            feeds: Table::new(),
            values: Table::new(),
        };
        assert(r@.providers =~= Seq::<Seq<u8>>::empty());
        assert(r@.urls =~= Map::<Seq<u8>, Seq<u8>>::empty());
        assert(r@.feeds =~= Map::<(Seq<u8>, Seq<u8>), Seq<PrimitiveOracleType>>::empty());
        r
    }

    /// Registers `key` with the settings `info`.
    ///
    /// Settings with a schedule of zero are refused as
    /// [`OracleError::InvalidPeriod`], and then a key that is registered
    /// already as [`OracleError::DuplicateKey`]; a refusal changes nothing.
    pub fn register_storage_key(&mut self, key: Vec<u8>, info: Info) -> (r: Result<(), OracleError>)
        requires
            old(self).wf(),
        ensures
            final(self).wf(),
            match r {
                Ok(_) => old(self)@.registered(key@, info) == Ok::<OracleView, OracleError>(
                    final(self)@,
                ),
                Err(e) => old(self)@.registered(key@, info) == Err::<OracleView, OracleError>(e)
                    && final(self)@ == old(self)@,
            },
    {
        if info.schedule == 0 {
            return Err(OracleError::InvalidPeriod);
        }
        if self.infos.contains_key(key.as_slice()) {
            return Err(OracleError::DuplicateKey);
        }
        self.infos.insert(key, info);
        Ok(())
    }

    /// Takes `key` out of the registered keys, with its settings and with
    /// every history under it. Nothing happens if `key` is not registered.
    pub fn remove_storage_key(&mut self, key: Vec<u8>)
        requires
            old(self).wf(),
        ensures
            final(self).wf(),
            final(self)@ == old(self)@.unregistered(key@),
    {
        proof {
            self.infos.lemma_entries();
        }
        self.infos.remove(key.as_slice());
        self.feeds.remove(key.as_slice());
        assert(self@.feeds =~= old(self)@.feeds.remove_keys(under(set![key@])));
    }

    /// Notes where the values of `key` are fetched from.
    pub fn set_url(&mut self, key: Vec<u8>, url: Vec<u8>)
        requires
            old(self).wf(),
        ensures
            final(self).wf(),
            final(self)@ == (OracleView {
                urls: old(self)@.urls.insert(key@, url@),
                ..old(self)@
            }),
    {
        self.urls.insert(key, url);
        assert(self@.urls =~= old(self)@.urls.insert(key@, url@));
    }

    /// Lists `who` among the submitters whose values count, unless listed.
    pub fn add_provider(&mut self, who: Vec<u8>)
        requires
            old(self).wf(),
        ensures
            final(self).wf(),
            final(self)@ == (OracleView {
                providers: if old(self)@.providers.contains(who@) {
                    old(self)@.providers
                } else {
                    old(self)@.providers.push(who@)
                },
                ..old(self)@
            }),
    {
        match position(&self.providers, who.as_slice()) {
            Some(i) => {
                assert(key_views(self.providers@)[i as int] == who@);
            },
            None => {
                proof {
                    lemma_push_distinct(key_views(self.providers@), who@);
                }
                self.providers.push(who);
                assert(key_views(self.providers@) =~= key_views(old(self).providers@).push(who@));
            },
        }
    }

    /// Strikes `who` from the submitters whose values count. The histories
    /// that `who` has filled stay, and count again once `who` is listed
    /// again and they are still there.
    pub fn remove_provider(&mut self, who: Vec<u8>)
        requires
            old(self).wf(),
        ensures
            final(self).wf(),
            final(self)@ == (OracleView {
                providers: without(old(self)@.providers, who@),
                ..old(self)@
            }),
    {
        match position(&self.providers, who.as_slice()) {
            Some(i) => {
                proof {
                    let s = key_views(self.providers@);
                    assert(s[i as int] == who@);
                    lemma_index_of(s, i as int);
                    lemma_remove_distinct(s, i as int);
                }
                self.providers.remove(i);
                assert(key_views(self.providers@) =~= key_views(old(self).providers@).remove(
                    i as int,
                ));
            },
            None => {},
        }
    }
}

/// The values that the submitters `providers` hold under `key` do not depend
/// on the histories under other keys.
pub proof fn lemma_gathered_agree(
    providers: Seq<Seq<u8>>,
    key: Seq<u8>,
    a: Map<(Seq<u8>, Seq<u8>), Seq<PrimitiveOracleType>>,
    b: Map<(Seq<u8>, Seq<u8>), Seq<PrimitiveOracleType>>,
)
    requires
        forall|who: Seq<u8>|
            providers.contains(who) ==> (a.contains_key((key, who)) <==> b.contains_key(
                (key, who),
            )),
        forall|who: Seq<u8>|
            providers.contains(who) && a.contains_key((key, who)) ==> a[(key, who)] == b[(
                key,
                who,
            )],
    ensures
        gathered(providers, key, a) == gathered(providers, key, b),
    decreases providers.len(),
{
    if providers.len() > 0 {
        let rest = providers.drop_last();
        assert(providers.contains(providers.last())) by {
            assert(providers[providers.len() - 1] == providers.last());
        }
        assert forall|who: Seq<u8>| rest.contains(who) implies providers.contains(who) by {
            let i = rest.index_of(who);
            assert(providers[i] == who);
        }
        lemma_gathered_agree(rest, key, a, b);
    }
}

/// Settles `key` on the parts of an oracle's state.
fn settle(
    feeds: &mut Table<Table<RingBuffer>>,
    values: &mut Table<PrimitiveOracleType>,
    providers: &Vec<Vec<u8>>,
    key: Vec<u8>,
    number_type: NumberType,
    operation: Operations,
)
    requires
        old(feeds).wf(),
        old(values).wf(),
        forall|k: Seq<u8>| old(feeds)@.contains_key(k) ==> (#[trigger] old(feeds)@[k]).wf(),
    ensures
        final(feeds).wf(),
        final(values).wf(),
        forall|k: Seq<u8>| final(feeds)@.contains_key(k) ==> (#[trigger] final(feeds)@[k]).wf(),
        feeds_view(final(feeds)@) == feeds_view(old(feeds)@).remove_keys(under(set![key@])),
        final(values)@ == old(values)@.insert(
            key@,
            aggregated(
                gathered(key_views(providers@), key@, feeds_view(old(feeds)@)),
                number_type,
                operation,
            ),
        ),
{
    let ghost before = feeds_view(feeds@);
    let ghost listed = key_views(providers@);
    let inner: Table<RingBuffer> = match feeds.remove(key.as_slice()) {
        Some(t) => t,
        None => Table::new(),
    };
    assert(forall|w: Seq<u8>|
        before.contains_key((key@, w)) <==> #[trigger] inner@.contains_key(w));
    assert(forall|w: Seq<u8>| #[trigger]
        inner@.contains_key(w) ==> before[(key@, w)] == inner@[w]@);
    let mut data: Vec<PrimitiveOracleType> = Vec::new();
    let mut i: usize = 0;
    assert(listed.take(0) =~= Seq::<Seq<u8>>::empty());
    while i < providers.len()
        invariant
            i <= providers.len(),
            inner.wf(),
            listed == key_views(providers@),
            forall|w: Seq<u8>|
                before.contains_key((key@, w)) <==> #[trigger] inner@.contains_key(w),
            forall|w: Seq<u8>| #[trigger] inner@.contains_key(w) ==> before[(key@, w)] == inner@[w]@,
            data@ == gathered(listed.take(i as int), key@, before),
        decreases providers.len() - i,
    {
        proof {
            let next = listed.take(i + 1);
            assert(next.drop_last() =~= listed.take(i as int));
            assert(next.last() == providers@[i as int]@);
        }
        match inner.get(providers[i].as_slice()) {
            Some(buffer) => {
                let mut held: Vec<PrimitiveOracleType> = buffer.to_vec();
                data.append(&mut held);
            },
            None => {},
        }
        i = i + 1;
    }
    assert(listed.take(providers@.len() as int) =~= listed);
    let result = aggregate(&data, number_type, operation);
    values.insert(key, result);
    assert(feeds_view(feeds@) =~= before.remove_keys(under(set![key@])));
}

/// The keys that are due at tick `n` and stand before place `i`.
pub open spec fn due_before(view: OracleView, n: u64, i: int) -> Set<Seq<u8>> {
    Set::new(|k: Seq<u8>| view.due(k, n) && view.keys.index_of(k) < i)
}

impl Oracle {
    /// Records `value` as the newest value of `who` under `key`.
    ///
    /// A key that is not registered is refused as
    /// [`OracleError::UnknownKey`], whatever the value, and then a value of
    /// another representation than the key's as
    /// [`OracleError::KindMismatch`]; a refusal changes nothing. Whether
    /// `who` is listed is not asked here: it decides when the key is
    /// settled. A submission that is recorded gives the notice to send out.
    pub fn feed_data_impl(&mut self, who: Vec<u8>, key: Vec<u8>, value: PrimitiveOracleType) -> (r:
        Result<NewData, OracleError>)
        requires
            old(self).wf(),
        ensures
            final(self).wf(),
            match r {
                Ok(notice) => old(self)@.submitted(who@, key@, value) == Ok::<
                    OracleView,
                    OracleError,
                >(final(self)@) && notice.who@ == who@ && notice.key@ == key@ && notice.value
                    == value,
                Err(e) => old(self)@.submitted(who@, key@, value) == Err::<OracleView, OracleError>(
                    e,
                ) && final(self)@ == old(self)@,
            },
    {
        let number_type: NumberType = match self.infos.get(key.as_slice()) {
            Some(info) => info.number_type,
            None => {
                return Err(OracleError::UnknownKey);
            },
        };
        if value.number_type() != number_type {
            return Err(OracleError::KindMismatch);
        }
        let ghost before = self@;
        let mut inner: Table<RingBuffer> = match self.feeds.remove(key.as_slice()) {
            Some(t) => t,
            None => Table::new(),
        };
        let ghost inner0 = inner@;
        assert(forall|w: Seq<u8>|
            before.feeds.contains_key((key@, w)) <==> #[trigger] inner0.contains_key(w));
        let buffer: RingBuffer = match inner.remove(who.as_slice()) {
            Some(b) => {
                let mut b = b;
                b.push(value);
                b
            },
            None => RingBuffer::filled(value),
        };
        assert(buffer@ == before.fed(who@, key@, value));
        let notice = NewData {
            who: copy_bytes(who.as_slice()),
            key: copy_bytes(key.as_slice()),
            value,
        };
        inner.insert(who, buffer);
        self.feeds.insert(key, inner);
        assert(self@.feeds =~= before.feeds.insert((key@, who@), before.fed(who@, key@, value)));
        Ok(notice)
    }

    /// Settles `key` as a key with the settings `info`: reduces the values
    /// that the listed submitters hold under it, publishes the result under
    /// `key` and drops every history under `key`.
    pub fn calc(&mut self, key: Vec<u8>, info: Info)
        requires
            old(self).wf(),
        ensures
            final(self).wf(),
            final(self)@ == old(self)@.settled(key@, info.number_type, info.operation),
    {
        settle(
            &mut self.feeds,
            &mut self.values,
            &self.providers,
            key,
            info.number_type,
            info.operation,
        );
    }

    /// Publishes `value` under `key`.
    pub fn set_storage_value(&mut self, key: Vec<u8>, value: PrimitiveOracleType)
        requires
            old(self).wf(),
        ensures
            final(self).wf(),
            final(self)@ == (OracleView {
                values: old(self)@.values.insert(key@, value),
                ..old(self)@
            }),
    {
        self.values.insert(key, value);
    }

    /// Ends tick `n`: settles every registered key whose schedule divides
    /// `n`.
    pub fn on_finalize(&mut self, n: u64)
        requires
            old(self).wf(),
        ensures
            final(self).wf(),
            final(self)@ == old(self)@.ticked(n),
    {
        let ghost before = self@;
        let count: usize = self.infos.len();
        let mut i: usize = 0;
        proof {
            self.infos.lemma_entries();
            assert forall|k: Seq<u8>| !due_before(before, n, 0).contains(k) by {
                if before.due(k, n) {
                    assert(before.keys.contains(k));
                    assert(before.keys[before.keys.index_of(k)] == k);
                }
            }
            assert(due_before(before, n, 0) =~= Set::<Seq<u8>>::empty());
            assert(under(due_before(before, n, 0)) =~= Set::<(Seq<u8>, Seq<u8>)>::empty());
            assert(before.feeds.remove_keys(under(due_before(before, n, 0))) =~= before.feeds);
            assert(before.settled_all(due_before(before, n, 0)).values =~= before.values);
        }
        while i < count
            invariant
                self.wf(),
                i <= count,
                count == before.keys.len(),
                self@.keys == before.keys,
                self@.infos == before.infos,
                self@.providers == before.providers,
                self@.urls == before.urls,
                self@.feeds == before.feeds.remove_keys(under(due_before(before, n, i as int))),
                self@.values == before.settled_all(due_before(before, n, i as int)).values,
                before.keys.no_duplicates(),
                forall|k: Seq<u8>| before.infos.contains_key(k) <==> before.keys.contains(k),
            decreases count - i,
        {
            let key: Vec<u8> = copy_bytes(self.infos.key_at(i).as_slice());
            let info = self.infos.value_at(i);
            let schedule: u64 = info.schedule;
            let number_type: NumberType = info.number_type;
            let operation: Operations = info.operation;
            let ghost now = self@;
            proof {
                lemma_index_of(before.keys, i as int);
                assert(before.infos[key@].schedule == schedule);
                let d0 = due_before(before, n, i as int);
                let d1 = due_before(before, n, i + 1);
                assert forall|k: Seq<u8>| d1.contains(k) <==> (d0.contains(k) || (k == key@
                    && before.due(k, n))) by {
                    if before.due(k, n) {
                        assert(before.keys.contains(k));
                        assert(before.keys[before.keys.index_of(k)] == k);
                    }
                }
                assert(!d0.contains(key@));
                lemma_gathered_agree(before.providers, key@, now.feeds, before.feeds);
            }
            if n % schedule == 0 {
                settle(
                    &mut self.feeds,
                    &mut self.values,
                    &self.providers,
                    key,
                    number_type,
                    operation,
                );
                proof {
                    let d1 = due_before(before, n, i + 1);
                    assert(self@.feeds =~= before.feeds.remove_keys(under(d1)));
                    assert(self@.values =~= before.settled_all(d1).values);
                }
            } else {
                proof {
                    assert(due_before(before, n, i as int) =~= due_before(before, n, i + 1));
                }
            }
            i = i + 1;
        }
        proof {
            let all = Set::new(|k: Seq<u8>| before.due(k, n));
            assert forall|k: Seq<u8>| all.contains(k) implies due_before(
                before,
                n,
                count as int,
            ).contains(k) by {
                assert(before.keys.contains(k));
                assert(before.keys[before.keys.index_of(k)] == k);
            }
            assert(due_before(before, n, count as int) =~= all);
        }
    }
}

/// A copy of each byte string of `keys`, in their order.
pub fn copy_keys(keys: &Vec<Vec<u8>>) -> (r: Vec<Vec<u8>>)
    ensures
        key_views(r@) == key_views(keys@),
{
    let mut out: Vec<Vec<u8>> = Vec::new();
    let mut i: usize = 0;
    while i < keys.len()
        invariant
            i <= keys.len(),
            key_views(out@) == key_views(keys@).take(i as int),
        decreases keys.len() - i,
    {
        let ghost before = out@;
        out.push(copy_bytes(keys[i].as_slice()));
        assert(key_views(out@) =~= key_views(before).push(keys@[i as int]@));
        assert(key_views(keys@).take(i + 1) =~= key_views(keys@).take(i as int).push(
            keys@[i as int]@,
        ));
        i = i + 1;
    }
    assert(key_views(keys@).take(keys@.len() as int) =~= key_views(keys@));
    out
}

impl Oracle {
    /// The registered keys in the order of their registration.
    pub fn all_keys(&self) -> (r: Vec<Vec<u8>>)
        requires
            self.wf(),
        ensures
            key_views(r@) == self@.keys,
    {
        let mut out: Vec<Vec<u8>> = Vec::new();
        let count: usize = self.infos.len();
        let mut i: usize = 0;
        while i < count
            invariant
                self.wf(),
                i <= count,
                count == self@.keys.len(),
                key_views(out@) == self@.keys.take(i as int),
            decreases count - i,
        {
            let ghost before = out@;
            out.push(copy_bytes(self.infos.key_at(i).as_slice()));
            assert(key_views(out@) =~= key_views(before).push(self@.keys[i as int]));
            assert(self@.keys.take(i + 1) =~= self@.keys.take(i as int).push(self@.keys[i as int]));
            i = i + 1;
        }
        assert(self@.keys.take(count as int) =~= self@.keys);
        out
    }

    /// The keys that [`Oracle::on_finalize`] settles at tick `n`, in the
    /// order of their registration: those under which a value is published
    /// at that tick.
    pub fn due_keys(&self, n: u64) -> (r: Vec<Vec<u8>>)
        requires
            self.wf(),
        ensures
            key_views(r@) == self@.due_keys(n),
    {
        let mut out: Vec<Vec<u8>> = Vec::new();
        let count: usize = self.infos.len();
        let mut i: usize = 0;
        proof {
            reveal(Seq::filter);
            assert(self@.keys.take(0) =~= Seq::<Seq<u8>>::empty());
            assert(key_views(out@) =~= Seq::<Seq<u8>>::empty());
        }
        while i < count
            invariant
                self.wf(),
                i <= count,
                count == self@.keys.len(),
                key_views(out@) == self@.keys.take(i as int).filter(self@.is_due(n)),
            decreases count - i,
        {
            let ghost before = out@;
            let schedule: u64 = self.infos.value_at(i).schedule;
            proof {
                reveal(Seq::filter);
                let next = self@.keys.take(i + 1);
                assert(next.drop_last() =~= self@.keys.take(i as int));
                assert(next.last() == self@.keys[i as int]);
                assert(self@.due(self@.keys[i as int], n) == (n % schedule == 0));
            }
            if n % schedule == 0 {
                out.push(copy_bytes(self.infos.key_at(i).as_slice()));
                assert(key_views(out@) =~= key_views(before).push(self@.keys[i as int]));
            }
            i = i + 1;
        }
        assert(self@.keys.take(count as int) =~= self@.keys);
        out
    }

    /// The submitters whose values count, in the order in which they were
    /// added.
    pub fn all_providers(&self) -> (r: Vec<Vec<u8>>)
        requires
            self.wf(),
        ensures
            key_views(r@) == self@.providers,
    {
        copy_keys(&self.providers)
    }

    /// The members of the set of submitters: the same as
    /// [`Oracle::all_providers`].
    pub fn sorted_members(&self) -> (r: Vec<Vec<u8>>)
        requires
            self.wf(),
        ensures
            key_views(r@) == self@.providers,
    {
        self.all_providers()
    }

    /// The settings of `key`, where it is registered.
    pub fn infos(&self, key: &[u8]) -> (r: Option<&Info>)
        requires
            self.wf(),
        ensures
            match r {
                Some(info) => self@.infos.contains_key(key@) && *info == self@.infos[key@],
                None => !self@.infos.contains_key(key@),
            },
    {
        self.infos.get(key)
    }

    /// Where the values of `key` are fetched from, where that is known.
    pub fn url(&self, key: &[u8]) -> (r: Option<&Vec<u8>>)
        requires
            self.wf(),
        ensures
            match r {
                Some(u) => self@.urls.contains_key(key@) && u@ == self@.urls[key@],
                None => !self@.urls.contains_key(key@),
            },
    {
        self.urls.get(key)
    }

    /// The history of `who` under `key`, where there is one.
    pub fn feeded_data(&self, key: &[u8], who: &[u8]) -> (r: Option<RingBuffer>)
        requires
            self.wf(),
        ensures
            match r {
                Some(b) => self@.feeds.contains_key((key@, who@)) && b@ == self@.feeds[(
                    key@,
                    who@,
                )],
                None => !self@.feeds.contains_key((key@, who@)),
            },
    {
        match self.feeds.get(key) {
            Some(inner) => match inner.get(who) {
                Some(b) => Some(*b),
                None => None,
            },
            None => None,
        }
    }

    /// The value published under `key`, where there is one.
    pub fn value(&self, key: &[u8]) -> (r: Option<PrimitiveOracleType>)
        requires
            self.wf(),
        ensures
            r == self@.values.get(key@),
    {
        match self.values.get(key) {
            Some(v) => Some(*v),
            None => None,
        }
    }
}

/// A reader of one published value: the value under `key`, or the value
/// `value` as long as nothing is published there.
#[derive(Clone, Copy, Debug)]
pub struct DataFeedGet {
    pub key: [u8; 32],
    pub value: PrimitiveOracleType,
}

impl DataFeedGet {
    pub fn get(&self, oracle: &Oracle) -> (r: PrimitiveOracleType)
        requires
            oracle.wf(),
        ensures
            r == (if oracle@.values.contains_key(self.key@) {
                oracle@.values[self.key@]
            } else {
                self.value
            }),
    {
        match oracle.value(self.key.as_slice()) {
            Some(v) => v,
            None => self.value,
        }
    }
}

/// Whatever is done to a valid state leaves a valid state.
pub proof fn lemma_valid_kept(
    view: OracleView,
    who: Seq<u8>,
    key: Seq<u8>,
    value: PrimitiveOracleType,
    info: Info,
    n: u64,
)
    requires
        view.valid(),
    ensures
        view.registered(key, info) matches Ok(next) ==> next.valid(),
        view.unregistered(key).valid(),
        view.submitted(who, key, value) matches Ok(next) ==> next.valid(),
        view.settled(key, info.number_type, info.operation).valid(),
        view.ticked(n).valid(),
{
    if view.registered(key, info) is Ok {
        let next = view.registered(key, info)->Ok_0;
        lemma_push_distinct(view.keys, key);
        assert forall|k: Seq<u8>| next.infos.contains_key(k) implies (#[trigger] next.infos[k]).schedule
            != 0 by {
            if k != key {
                assert(view.infos.contains_key(k));
            }
        }
        assert forall|k: Seq<u8>| next.infos.contains_key(k) <==> next.keys.contains(k) by {
            assert(view.infos.contains_key(k) <==> view.keys.contains(k));
            assert(next.keys.contains(k) <==> (view.keys.contains(k) || k == key));
        }
    }
    let gone = view.unregistered(key);
    if view.keys.contains(key) {
        let i = view.keys.index_of(key);
        assert(view.keys[i] == key);
        lemma_remove_distinct(view.keys, i);
    }
    assert forall|k: Seq<u8>| gone.infos.contains_key(k) implies (#[trigger] gone.infos[k]).schedule
        != 0 by {
        assert(view.infos.contains_key(k));
    }
    assert forall|p: (Seq<u8>, Seq<u8>)| gone.feeds.contains_key(p) implies (
    #[trigger] gone.feeds[p]).len() == RING_BUF_LEN by {
        assert(view.feeds.contains_key(p));
    }
    assert forall|k: Seq<u8>| gone.infos.contains_key(k) <==> gone.keys.contains(k) by {
        assert(view.infos.contains_key(k) <==> view.keys.contains(k));
        assert(gone.keys.contains(k) <==> (view.keys.contains(k) && k != key));
    }
}

/// A submission under a key that is not registered is refused as
/// [`OracleError::UnknownKey`], whoever submits and whatever the value.
pub proof fn lemma_unknown_key_refused(
    view: OracleView,
    who: Seq<u8>,
    key: Seq<u8>,
    value: PrimitiveOracleType,
)
    requires
        view.valid(),
        !view.keys.contains(key),
    ensures
        view.submitted(who, key, value) == Err::<OracleView, OracleError>(OracleError::UnknownKey),
{
}

/// Once a key is removed, a submission under it is refused as
/// [`OracleError::UnknownKey`].
pub proof fn lemma_removed_key_refused(
    view: OracleView,
    who: Seq<u8>,
    key: Seq<u8>,
    value: PrimitiveOracleType,
)
    ensures
        view.unregistered(key).submitted(who, key, value) == Err::<OracleView, OracleError>(
            OracleError::UnknownKey,
        ),
        forall|w: Seq<u8>| !view.unregistered(key).feeds.contains_key((key, w)),
{
}

/// Settling a key publishes what the values of the listed submitters reduce
/// to and leaves no history under the key; the histories under other keys
/// and the values published under other keys stay as they are.
pub proof fn lemma_settled(view: OracleView, key: Seq<u8>, kind: NumberType, op: Operations)
    ensures
        view.settled(key, kind, op).values[key] == aggregated(view.collected(key), kind, op),
        forall|w: Seq<u8>| !view.settled(key, kind, op).feeds.contains_key((key, w)),
        forall|k: Seq<u8>, w: Seq<u8>|
            k != key ==> view.settled(key, kind, op).feeds.contains_key((k, w))
                == view.feeds.contains_key((k, w)) && (view.feeds.contains_key((k, w))
                ==> view.settled(key, kind, op).feeds[(k, w)] == view.feeds[(k, w)]),
        forall|k: Seq<u8>|
            k != key ==> view.settled(key, kind, op).values.contains_key(k)
                == view.values.contains_key(k) && (view.values.contains_key(k) ==> view.settled(
                key,
                kind,
                op,
            ).values[k] == view.values[k]),
{
}

/// The values that count under a key are those of the listed submitters
/// alone: the history of a submitter that is not listed changes nothing,
/// whatever it holds.
pub proof fn lemma_unlisted_not_counted(
    view: OracleView,
    key: Seq<u8>,
    who: Seq<u8>,
    history: Seq<PrimitiveOracleType>,
)
    requires
        !view.providers.contains(who),
    ensures
        (OracleView { feeds: view.feeds.insert((key, who), history), ..view }).collected(key)
            == view.collected(key),
        (OracleView { feeds: view.feeds.remove((key, who)), ..view }).collected(key)
            == view.collected(key),
{
    lemma_gathered_agree(view.providers, key, view.feeds.insert((key, who), history), view.feeds);
    lemma_gathered_agree(view.providers, key, view.feeds.remove((key, who)), view.feeds);
}

/// A submitter that is struck from the list no longer counts: the values
/// that count are those that counted before, without that submitter's.
pub proof fn lemma_struck_not_counted(view: OracleView, key: Seq<u8>, who: Seq<u8>)
    requires
        view.providers.no_duplicates(),
    ensures
        (OracleView { providers: without(view.providers, who), ..view }).collected(key) == (
        OracleView {
            feeds: view.feeds.remove((key, who)),
            ..view
        }).collected(key),
{
    let cut = view.feeds.remove((key, who));
    if view.providers.contains(who) {
        let i = view.providers.index_of(who);
        lemma_remove_distinct(view.providers, i);
        lemma_gathered_skip(view.providers, i, key, cut);
    }
    lemma_gathered_agree(without(view.providers, who), key, view.feeds, cut);
}

/// A submitter without a history under `key` adds nothing to the values
/// gathered there.
proof fn lemma_gathered_skip(
    providers: Seq<Seq<u8>>,
    i: int,
    key: Seq<u8>,
    feeds: Map<(Seq<u8>, Seq<u8>), Seq<PrimitiveOracleType>>,
)
    requires
        0 <= i < providers.len(),
        !feeds.contains_key((key, providers[i])),
    ensures
        gathered(providers.remove(i), key, feeds) == gathered(providers, key, feeds),
    decreases providers.len(),
{
    let last = providers.len() - 1;
    if i == last {
        assert(providers.remove(i) =~= providers.drop_last());
    } else {
        assert(providers.remove(i).drop_last() =~= providers.drop_last().remove(i));
        assert(providers.remove(i).last() == providers.last());
        lemma_gathered_skip(providers.drop_last(), i, key, feeds);
    }
}

/// Where two submitters are listed and each holds a history filled by one
/// value, settling the key counts each value once for every slot: the sum is
/// `8 * a + 8 * b`, stopping at the largest `u128`, and the average is that
/// sum divided by sixteen. With no saturation the average is the average of
/// `a` and `b`.
pub proof fn lemma_two_first_values(
    view: OracleView,
    key: Seq<u8>,
    first: Seq<u8>,
    second: Seq<u8>,
    a: PrimitiveOracleType,
    b: PrimitiveOracleType,
    op: Operations,
)
    requires
        view.providers == seq![first, second],
        first != second,
        a.kind() == b.kind(),
        view.feeds.contains_key((key, first)),
        view.feeds.contains_key((key, second)),
        view.feeds[(key, first)] == Seq::new(RING_BUF_LEN as nat, |i: int| a),
        view.feeds[(key, second)] == Seq::new(RING_BUF_LEN as nat, |i: int| b),
    ensures
        view.settled(key, a.kind(), op).values[key] == PrimitiveOracleType::of(
            a.kind(),
            match op {
                Operations::Sum => saturated(8 * a.raw() + 8 * b.raw()),
                Operations::Average => (saturated(8 * a.raw() + 8 * b.raw()) / 16) as u128,
            },
        ),
        8 * a.raw() + 8 * b.raw() <= u128::MAX ==> view.settled(
            key,
            a.kind(),
            Operations::Average,
        ).values[key] == PrimitiveOracleType::of(a.kind(), ((a.raw() + b.raw()) / 2) as u128),
{
    let kind = a.kind();
    let ha = Seq::new(RING_BUF_LEN as nat, |i: int| a);
    let hb = Seq::new(RING_BUF_LEN as nat, |i: int| b);
    let p = view.providers;
    assert(p.drop_last() =~= seq![first]);
    assert(seq![first].drop_last() =~= Seq::<Seq<u8>>::empty());
    assert(seq![first].last() == first);
    assert(gathered(Seq::<Seq<u8>>::empty(), key, view.feeds) =~= Seq::empty());
    assert(gathered(seq![first], key, view.feeds) =~= ha);
    assert(view.collected(key) == ha + hb);
    lemma_numbers_of_concat(ha, hb, kind);
    lemma_repeated(RING_BUF_LEN as nat, a, kind);
    lemma_repeated(RING_BUF_LEN as nat, b, kind);
    lemma_total_concat(numbers_of(ha, kind), numbers_of(hb, kind));
    let numbers = numbers_of(ha + hb, kind);
    assert(numbers.len() == 16);
    assert(total(numbers) == 8 * a.raw() + 8 * b.raw());
    if 8 * a.raw() + 8 * b.raw() <= u128::MAX {
        assert((8 * a.raw() + 8 * b.raw()) / 16 == (a.raw() + b.raw()) / 2);
    }
}

/// Where one submitter is listed and holds a history filled by one value,
/// settling the key counts that value eight times, whatever unlisted
/// submitters hold: the sum is `8 * a`, stopping at the largest `u128`, and
/// the average is that sum divided by eight.
pub proof fn lemma_one_first_value(
    view: OracleView,
    key: Seq<u8>,
    who: Seq<u8>,
    a: PrimitiveOracleType,
    op: Operations,
)
    requires
        view.providers == seq![who],
        view.feeds.contains_key((key, who)),
        view.feeds[(key, who)] == Seq::new(RING_BUF_LEN as nat, |i: int| a),
    ensures
        view.settled(key, a.kind(), op).values[key] == PrimitiveOracleType::of(
            a.kind(),
            match op {
                Operations::Sum => saturated(8 * a.raw()),
                Operations::Average => (saturated(8 * a.raw()) / 8) as u128,
            },
        ),
{
    let kind = a.kind();
    let ha = Seq::new(RING_BUF_LEN as nat, |i: int| a);
    assert(view.providers.drop_last() =~= Seq::<Seq<u8>>::empty());
    assert(view.providers.last() == who);
    assert(gathered(Seq::<Seq<u8>>::empty(), key, view.feeds) =~= Seq::empty());
    assert(view.collected(key) =~= ha);
    lemma_repeated(RING_BUF_LEN as nat, a, kind);
}

} // verus!

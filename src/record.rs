//! The structured log record, the merge of an envelope with the fragment
//! taken from its message, and the choice of stages.
use vstd::prelude::*;
use crate::value::{DataValue, DataView};
use crate::logfmt::{parse_logfmt, level_of, name_of, message_of, pairs_data, pairs_of};

verus! {

#[verifier::external_type_specification]
#[verifier::external_body]
pub struct ExValue(serde_json::Value);

/// A structured log record.
pub struct Log {
    dt: Option<String>,
    level: Option<String>,
    name: Option<String>,
    pub message: String,
    platform: Option<String>,
    extension: Option<serde_json::Value>,
    data: Vec<(String, DataValue)>,
}

/// The map that a list of entries stands for: a later entry wins.
pub open spec fn entries_map(v: Seq<(String, DataValue)>) -> Map<Seq<char>, DataView>
    decreases v.len(),
{
    if v.len() == 0 {
        Map::empty()
    } else {
        entries_map(v.drop_last()).insert(v.last().0@, v.last().1@)
    }
}

/// No key occurs twice.
pub open spec fn keys_unique(v: Seq<(String, DataValue)>) -> bool {
    forall|i: int, j: int| 0 <= i < j < v.len() ==> v[i].0@ != v[j].0@
}

pub open spec fn opt_view(o: Option<String>) -> Option<Seq<char>> {
    match o {
        Some(s) => Some(s@),
        None => None,
    }
}

proof fn lemma_entries_dom(v: Seq<(String, DataValue)>, k: Seq<char>)
    ensures
        entries_map(v).contains_key(k) <==> exists|j: int| 0 <= j < v.len() && v[j].0@ == k,
    decreases v.len(),
{
    if v.len() > 0 {
        lemma_entries_dom(v.drop_last(), k);
        if entries_map(v).contains_key(k) && k != v.last().0@ {
            let j = choose|j: int| 0 <= j < v.len() - 1 && v.drop_last()[j].0@ == k;
            assert(v[j].0@ == k);
        }
        if exists|j: int| 0 <= j < v.len() && v[j].0@ == k {
            let j = choose|j: int| 0 <= j < v.len() && v[j].0@ == k;
            if j < v.len() - 1 {
                assert(v.drop_last()[j].0@ == k);
            }
        }
    }
}

proof fn lemma_entries_update(v: Seq<(String, DataValue)>, j: int, e: (String, DataValue))
    requires
        keys_unique(v),
        0 <= j < v.len(),
        v[j].0@ == e.0@,
    ensures
        entries_map(v.update(j, e)) == entries_map(v).insert(e.0@, e.1@),
        keys_unique(v.update(j, e)),
    decreases v.len(),
{
    let w = v.update(j, e);
    if j == v.len() - 1 {
        assert(w.drop_last() =~= v.drop_last());
        assert(entries_map(w) =~= entries_map(v).insert(e.0@, e.1@));
    } else {
        assert(w.drop_last() =~= v.drop_last().update(j, e));
        lemma_entries_update(v.drop_last(), j, e);
        assert(v.last().0@ != e.0@);
        assert(entries_map(w) =~= entries_map(v).insert(e.0@, e.1@));
    }
    assert forall|a: int, b: int| 0 <= a < b < w.len() implies w[a].0@ != w[b].0@ by {
        if a != j && b != j {
            assert(v[a].0@ != v[b].0@);
        } else if a == j {
            assert(v[j].0@ != v[b].0@);
        } else {
            assert(v[a].0@ != v[j].0@);
        }
    }
}

/// Sets `key` to `value` in the entries, in place where the key is there.
pub(crate) fn put_entry(data: &mut Vec<(String, DataValue)>, key: String, value: DataValue)
    requires
        keys_unique(old(data)@),
    ensures
        keys_unique(final(data)@),
        entries_map(final(data)@) == entries_map(old(data)@).insert(key@, value@),
{
    let mut j: usize = 0;
    while j < data.len()
        invariant
            j <= data@.len(),
            data@ == old(data)@,
            keys_unique(data@),
            forall|k: int| 0 <= k < j ==> data@[k].0@ != key@,
        decreases data@.len() - j,
    {
        if data[j].0 == key {
            proof {
                lemma_entries_update(data@, j as int, (key, value));
            }
            data.set(j, (key, value));
            return;
        }
        j += 1;
    }
    let ghost before = data@;
    data.push((key, value));
    proof {
        assert(data@.drop_last() =~= before);
        assert forall|a: int, b: int| 0 <= a < b < data@.len() implies data@[a].0@ != data@[b].0@ by {
            if b < before.len() {
                assert(before[a].0@ != before[b].0@);
            }
        }
    }
}

proof fn lemma_entries_at(v: Seq<(String, DataValue)>, j: int)
    requires
        keys_unique(v),
        0 <= j < v.len(),
    ensures
        entries_map(v).contains_key(v[j].0@),
        entries_map(v)[v[j].0@] == v[j].1@,
    decreases v.len(),
{
    if j < v.len() - 1 {
        lemma_entries_at(v.drop_last(), j);
        assert(v.drop_last()[j] == v[j]);
        assert(v.last().0@ != v[j].0@);
    }
}

impl Log {
    /// The record is well formed: no key of `data` occurs twice.
    pub closed spec fn wf(&self) -> bool {
        keys_unique(self.data@)
    }

    pub closed spec fn spec_dt(&self) -> Option<Seq<char>> {
        opt_view(self.dt)
    }

    pub closed spec fn spec_level(&self) -> Option<Seq<char>> {
        opt_view(self.level)
    }

    pub closed spec fn spec_name(&self) -> Option<Seq<char>> {
        opt_view(self.name)
    }

    pub closed spec fn spec_message(&self) -> Seq<char> {
        self.message@
    }

    pub closed spec fn spec_platform(&self) -> Option<Seq<char>> {
        opt_view(self.platform)
    }

    pub closed spec fn spec_extension(&self) -> Option<serde_json::Value> {
        self.extension
    }

    /// The key/value pairs of the record.
    pub closed spec fn spec_data(&self) -> Map<Seq<char>, DataView> {
        entries_map(self.data@)
    }

    pub closed spec fn spec_entries(&self) -> Seq<(String, DataValue)> {
        self.data@
    }

    /// A record with the envelope's fields and no key/value pairs.
    pub fn new(
        dt: Option<String>,
        level: Option<String>,
        name: Option<String>,
        message: String,
        platform: Option<String>,
        extension: Option<serde_json::Value>,
    ) -> (r: Log)
        ensures
            r.wf(),
            r.spec_dt() == opt_view(dt),
            r.spec_level() == opt_view(level),
            r.spec_name() == opt_view(name),
            r.spec_message() == message@,
            r.spec_platform() == opt_view(platform),
            r.spec_extension() == extension,
            r.spec_data() == Map::<Seq<char>, DataView>::empty(),
    {
        Log { dt, level, name, message, platform, extension, data: Vec::new() }
    }

    /// Sets `key` to `value`; a value already under `key` is replaced.
    pub fn insert(&mut self, key: String, value: DataValue)
        requires
            old(self).wf(),
        ensures
            final(self).wf(),
            final(self).spec_data() == old(self).spec_data().insert(key@, value@),
            final(self).spec_dt() == old(self).spec_dt(),
            final(self).spec_level() == old(self).spec_level(),
            final(self).spec_name() == old(self).spec_name(),
            final(self).spec_message() == old(self).spec_message(),
            final(self).spec_platform() == old(self).spec_platform(),
            final(self).spec_extension() == old(self).spec_extension(),
    {
        put_entry(&mut self.data, key, value);
    }
}


impl Log {
    pub fn dt(&self) -> (r: &Option<String>)
        ensures
            opt_view(*r) == self.spec_dt(),
    {
        &self.dt
    }

    pub fn level(&self) -> (r: &Option<String>)
        ensures
            opt_view(*r) == self.spec_level(),
    {
        &self.level
    }

    pub fn name(&self) -> (r: &Option<String>)
        ensures
            opt_view(*r) == self.spec_name(),
    {
        &self.name
    }

    pub fn message(&self) -> (r: &String)
        ensures
            r@ == self.spec_message(),
    {
        &self.message
    }

    pub fn platform(&self) -> (r: &Option<String>)
        ensures
            opt_view(*r) == self.spec_platform(),
    {
        &self.platform
    }

    pub fn extension(&self) -> (r: &Option<serde_json::Value>)
        ensures
            *r == self.spec_extension(),
    {
        &self.extension
    }

    /// The key/value pairs, each key once.
    pub fn entries(&self) -> (r: &Vec<(String, DataValue)>)
        requires
            self.wf(),
        ensures
            keys_unique(r@),
            entries_map(r@) == self.spec_data(),
    {
        &self.data
    }

    /// The value under `key`, if any.
    pub fn get(&self, key: &str) -> (r: Option<&DataValue>)
        requires
            self.wf(),
        ensures
            match r {
                Some(v) => self.spec_data().contains_key(key@) && self.spec_data()[key@] == v@,
                None => !self.spec_data().contains_key(key@),
            },
    {
        let k = key.to_owned();
        let mut j: usize = 0;
        while j < self.data.len()
            invariant
                j <= self.data@.len(),
                k@ == key@,
                keys_unique(self.data@),
                forall|q: int| 0 <= q < j ==> self.data@[q].0@ != key@,
            decreases self.data@.len() - j,
        {
            if self.data[j].0 == k {
                proof {
                    lemma_entries_at(self.data@, j as int);
                }
                return Some(&self.data[j].1);
            }
            j += 1;
        }
        proof {
            lemma_entries_dom(self.data@, key@);
        }
        None
    }

    /// The record that results from an envelope (`self`) and the fragment
    /// taken from its message (`inner`): the inner pairs join the outer ones
    /// and win on a shared key, the inner logger name replaces the outer
    /// one, the outer severity stays where there is one, and the inner
    /// residual message becomes the message.
    pub fn merge(self, inner: Log) -> (r: Log)
        requires
            self.wf(),
            inner.wf(),
        ensures
            r.wf(),
            r.spec_data() == self.spec_data().union_prefer_right(inner.spec_data()),
            r.spec_name() == inner.spec_name(),
            r.spec_level() == (if self.spec_level() is Some { self.spec_level() } else { inner.spec_level() }),
            r.spec_message() == inner.spec_message(),
            r.spec_dt() == self.spec_dt(),
            r.spec_platform() == self.spec_platform(),
            r.spec_extension() == self.spec_extension(),
    {
        let Log { dt, level, name: _, message: _, platform, extension, data } = self;
        let Log { dt: _, level: inner_level, name, message, platform: _, extension: _, data: inner_data } = inner;
        let ghost target = entries_map(data@).union_prefer_right(entries_map(inner_data@));
        let mut data = data;
        let mut rest = inner_data;
        while rest.len() > 0
            invariant
                keys_unique(data@),
                keys_unique(rest@),
                entries_map(data@).union_prefer_right(entries_map(rest@)) == target,
            decreases rest@.len(),
        {
            let ghost w = rest@;
            let e = rest.pop();
            match e {
                Some((k, v)) => {
                    proof {
                        assert(rest@ == w.drop_last());
                        lemma_entries_dom(rest@, k@);
                        assert(!entries_map(rest@).contains_key(k@)) by {
                            if entries_map(rest@).contains_key(k@) {
                                let q = choose|q: int| 0 <= q < rest@.len() && rest@[q].0@ == k@;
                                assert(w[q].0@ != w[w.len() - 1].0@);
                            }
                        }
                        assert(entries_map(data@).insert(k@, v@).union_prefer_right(entries_map(rest@))
                            =~= entries_map(data@).union_prefer_right(entries_map(w)));
                    }
                    put_entry(&mut data, k, v);
                },
                None => {},
            }
        }
        assert(entries_map(rest@) =~= Map::<Seq<char>, DataView>::empty());
        assert(entries_map(data@).union_prefer_right(entries_map(rest@)) =~= entries_map(data@));
        let level = match level {
            Some(l) => Some(l),
            None => inner_level,
        };
        Log { dt, level, name, message, platform, extension, data }
    }

    /// Runs the tokenizer on the message of an envelope and merges what it
    /// finds into the envelope, as `merge` does.
    pub fn expand_message(self) -> (r: Log)
        requires
            self.wf(),
        ensures
            r.wf(),
            r.spec_data() == self.spec_data().union_prefer_right(pairs_data(pairs_of(self.spec_message()))),
            r.spec_name() == name_of(self.spec_message()),
            r.spec_level() == (if self.spec_level() is Some { self.spec_level() } else { level_of(self.spec_message()) }),
            r.spec_message() == message_of(self.spec_message()),
            r.spec_dt() == self.spec_dt(),
            r.spec_platform() == self.spec_platform(),
            r.spec_extension() == self.spec_extension(),
    {
        let Log { dt, level, name, message, platform, extension, data } = self;
        let outer = Log { dt, level, name, message: String::new(), platform, extension, data };
        let inner = parse_logfmt(message);
        outer.merge(inner)
    }
}

/// How a stage reads a line.
#[derive(Debug, Clone, Copy, PartialEq, Eq, Structural)]
pub enum InnerStrategy {
    /// The line is a JSON envelope.
    Json,
    /// The line is free text with `key=value` pairs.
    Logfmt,
}

/// One stage, or an outer stage whose message goes to an inner one.
#[derive(Debug, Clone, Copy, PartialEq, Eq, Structural)]
pub enum Strategy {
    Direct(InnerStrategy),
    Nested { outer: InnerStrategy, inner: InnerStrategy },
}

/// Reads log lines with a strategy.
pub struct Parser {
    strategy: Strategy,
}

impl Parser {
    pub closed spec fn spec_strategy(&self) -> Strategy {
        self.strategy
    }

    /// A JSON envelope whose message is free text.
    pub fn nested() -> (r: Self)
        ensures
            r.spec_strategy() == (Strategy::Nested { outer: InnerStrategy::Json, inner: InnerStrategy::Logfmt }),
    {
        Self { strategy: Strategy::Nested { outer: InnerStrategy::Json, inner: InnerStrategy::Logfmt } }
    }

    pub fn new(strategy: Strategy) -> (r: Self)
        ensures
            r.spec_strategy() == strategy,
    {
        Self { strategy }
    }

    pub fn strategy(&self) -> (r: Strategy)
        ensures
            r == self.spec_strategy(),
    {
        self.strategy
    }
}

} // verus!

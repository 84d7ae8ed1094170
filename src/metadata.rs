//! Units and value tables of signals, gathered from their descriptions.

use vstd::prelude::*;
use crate::data_store::{copy_table, set_entry, DataStore, same_text};
use crate::dbc::{Dbc, DbcMessage, SignalDesc};

verus! {

/// Units and value tables gathered from signal descriptions, with the names
/// seen so far.
pub struct MetaModel {
    pub units: Seq<(Seq<char>, Seq<char>)>,
    pub tables: Seq<(Seq<char>, Seq<(i64, String)>)>,
    pub seen: Seq<Seq<char>>,
}

/// Effect of one signal description: its unit replaces any earlier unit of its
/// name; the first description of a name also gives the name's value table.
pub open spec fn meta_step(st: MetaModel, s: SignalDesc) -> MetaModel {
    let units = set_entry(st.units, s.name@, s.unit@);
    if st.seen.contains(s.name@) {
        MetaModel { units, ..st }
    } else {
        MetaModel {
            units,
            tables: match s.value_table {
                Some(t) => set_entry(st.tables, s.name@, t@),
                None => st.tables,
            },
            seen: st.seen.push(s.name@),
        }
    }
}

pub open spec fn meta_signals(st: MetaModel, sigs: Seq<SignalDesc>, n: int) -> MetaModel
    decreases n,
{
    if n <= 0 {
        st
    } else {
        meta_step(meta_signals(st, sigs, n - 1), sigs[n - 1])
    }
}

pub open spec fn meta_messages(st: MetaModel, msgs: Seq<DbcMessage>, n: int) -> MetaModel
    decreases n,
{
    if n <= 0 {
        st
    } else {
        let prev = meta_messages(st, msgs, n - 1);
        meta_signals(prev, msgs[n - 1].signals@, msgs[n - 1].signals@.len() as int)
    }
}

pub open spec fn meta_dbcs(st: MetaModel, dbcs: Seq<Dbc>, n: int) -> MetaModel
    decreases n,
{
    if n <= 0 {
        st
    } else {
        let prev = meta_dbcs(st, dbcs, n - 1);
        meta_messages(prev, dbcs[n - 1].messages@, dbcs[n - 1].messages@.len() as int)
    }
}

/// Metadata after every signal of every message of every database of every
/// bus, in that order.
pub open spec fn meta_buses(st: MetaModel, buses: Seq<Vec<Dbc>>, n: int) -> MetaModel
    decreases n,
{
    if n <= 0 {
        st
    } else {
        let prev = meta_buses(st, buses, n - 1);
        meta_dbcs(prev, buses[n - 1]@, buses[n - 1]@.len() as int)
    }
}

pub open spec fn names_view(v: Seq<String>) -> Seq<Seq<char>> {
    v.map_values(|s: String| s@)
}

fn contains_name(seen: &Vec<String>, name: &String) -> (r: bool)
    ensures
        r == names_view(seen@).contains(name@),
{
    let mut i: usize = 0;
    while i < seen.len()
        invariant
            i <= seen@.len(),
            forall|j: int| 0 <= j < i ==> seen@[j]@ != name@,
        decreases seen@.len() - i,
    {
        if same_text(seen[i].as_str(), name.as_str()) {
            assert(names_view(seen@)[i as int] == name@);
            return true;
        }
        i = i + 1;
    }
    assert(!names_view(seen@).contains(name@)) by {
        if names_view(seen@).contains(name@) {
            let k = choose|k: int| 0 <= k < names_view(seen@).len() && names_view(seen@)[k] == name@;
            assert(seen@[k]@ == name@);
        }
    }
    false
}

pub open spec fn meta_of(store: DataStore, seen: Seq<String>) -> MetaModel {
    MetaModel { units: store.units(), tables: store.value_tables(), seen: names_view(seen) }
}

fn register_signal(store: &mut DataStore, seen: &mut Vec<String>, s: &SignalDesc)
    requires
        old(store).wf(),
    ensures
        final(store).wf(),
        final(store).series() == old(store).series(),
        meta_of(*final(store), final(seen)@) == meta_step(meta_of(*old(store), old(seen)@), *s),
{
    store.set_unit(s.name.as_str(), s.unit.as_str());
    if !contains_name(seen, &s.name) {
        match &s.value_table {
            Some(t) => {
                store.set_value_table(s.name.as_str(), copy_table(t));
            },
            None => {},
        }
        seen.push(s.name.clone());
        assert(names_view(seen@) =~= names_view(old(seen)@).push(s.name@));
    }
}

fn register_message(store: &mut DataStore, seen: &mut Vec<String>, msg: &DbcMessage)
    requires
        old(store).wf(),
    ensures
        final(store).wf(),
        final(store).series() == old(store).series(),
        meta_of(*final(store), final(seen)@) == meta_signals(
            meta_of(*old(store), old(seen)@),
            msg.signals@,
            msg.signals@.len() as int,
        ),
{
    let ghost st0 = meta_of(*store, seen@);
    let mut i: usize = 0;
    while i < msg.signals.len()
        invariant
            i <= msg.signals@.len(),
            store.wf(),
            store.series() == old(store).series(),
            st0 == meta_of(*old(store), old(seen)@),
            meta_of(*store, seen@) == meta_signals(st0, msg.signals@, i as int),
        decreases msg.signals@.len() - i,
    {
        register_signal(store, seen, &msg.signals[i]);
        i = i + 1;
    }
}

fn register_dbc(store: &mut DataStore, seen: &mut Vec<String>, dbc: &Dbc)
    requires
        old(store).wf(),
    ensures
        final(store).wf(),
        final(store).series() == old(store).series(),
        meta_of(*final(store), final(seen)@) == meta_messages(
            meta_of(*old(store), old(seen)@),
            dbc.messages@,
            dbc.messages@.len() as int,
        ),
{
    let ghost st0 = meta_of(*store, seen@);
    let mut i: usize = 0;
    while i < dbc.messages.len()
        invariant
            i <= dbc.messages@.len(),
            store.wf(),
            store.series() == old(store).series(),
            st0 == meta_of(*old(store), old(seen)@),
            meta_of(*store, seen@) == meta_messages(st0, dbc.messages@, i as int),
        decreases dbc.messages@.len() - i,
    {
        register_message(store, seen, &dbc.messages[i]);
        i = i + 1;
    }
}

fn register_bus(store: &mut DataStore, seen: &mut Vec<String>, bus: &Vec<Dbc>)
    requires
        old(store).wf(),
    ensures
        final(store).wf(),
        final(store).series() == old(store).series(),
        meta_of(*final(store), final(seen)@) == meta_dbcs(meta_of(*old(store), old(seen)@), bus@, bus@.len() as int),
{
    let ghost st0 = meta_of(*store, seen@);
    let mut i: usize = 0;
    while i < bus.len()
        invariant
            i <= bus@.len(),
            store.wf(),
            store.series() == old(store).series(),
            st0 == meta_of(*old(store), old(seen)@),
            meta_of(*store, seen@) == meta_dbcs(st0, bus@, i as int),
        decreases bus@.len() - i,
    {
        register_dbc(store, seen, &bus[i]);
        i = i + 1;
    }
}

impl DataStore {
    /// Records the unit of every signal described for any bus (a later
    /// description of a name replacing an earlier one), and for each name the
    /// value table of its first description, in bus, database, message and
    /// signal order.
    pub fn register_signals(&mut self, buses: &Vec<Vec<Dbc>>)
        requires
            old(self).wf(),
        ensures
            final(self).wf(),
            final(self).series() == old(self).series(),
            ({
                let fin = meta_buses(
                    MetaModel { units: old(self).units(), tables: old(self).value_tables(), seen: Seq::empty() },
                    buses@,
                    buses@.len() as int,
                );
                final(self).units() == fin.units && final(self).value_tables() == fin.tables
            }),
    {
        let mut seen: Vec<String> = Vec::new();
        let ghost st0 = meta_of(*self, seen@);
        assert(st0 == MetaModel { units: old(self).units(), tables: old(self).value_tables(), seen: Seq::empty() }) by {
            assert(names_view(seen@) =~= Seq::<Seq<char>>::empty());
        }
        let mut i: usize = 0;
        while i < buses.len()
            invariant
                i <= buses@.len(),
                self.wf(),
                self.series() == old(self).series(),
                st0 == (MetaModel { units: old(self).units(), tables: old(self).value_tables(), seen: Seq::empty() }),
                meta_of(*self, seen@) == meta_buses(st0, buses@, i as int),
            decreases buses@.len() - i,
        {
            register_bus(self, &mut seen, &buses[i]);
            i = i + 1;
        }
    }
}

} // verus!

//! Decoding of whole frames against the databases of each bus: message lookup,
//! multiplexing, and the rule that a signal name belongs to the first bus that
//! defines it.

use vstd::prelude::*;
use std::collections::HashMap;
use crate::blf_reader::{CanMessage, FrameModel};
use crate::dbc::{ByteOrder, Dbc, DbcMessage, Multiplex, MuxSwitch, SignalDesc};
use crate::decode::{decode_signal, reading_of, Reading};
use crate::signal::{extract_signal_raw, extract_spec};

verus! {

/// Whether some message of the databases of `bus` has a signal named `name`.
pub open spec fn defines(bus: Seq<Dbc>, name: Seq<char>) -> bool {
    exists|d: int, m: int, s: int|
        0 <= d < bus.len() && 0 <= m < bus[d].messages@.len() && 0 <= s < bus[d].messages@[m].signals@.len()
            && #[trigger] bus[d].messages@[m].signals@[s].name@ == name
}

/// No bus before bus `b` defines `name`: signals of that name are taken from
/// bus `b` only if it is the first bus to define them.
pub open spec fn claims(buses: Seq<Vec<Dbc>>, b: int, name: Seq<char>) -> bool {
    forall|c: int| 0 <= c < b ==> !defines(#[trigger] buses[c]@, name)
}

/// Last message with identifier `id` among the first `n` of `msgs`.
pub open spec fn last_message(msgs: Seq<DbcMessage>, id: u32, n: int) -> Option<int>
    decreases n,
{
    if n <= 0 {
        None
    } else if msgs[n - 1].id == id {
        Some(n - 1)
    } else {
        last_message(msgs, id, n - 1)
    }
}

/// The definition in force for message `id` among the first `n` databases of
/// a bus: a later database overrides an earlier one, and within one database
/// a later message an earlier one.
pub open spec fn message_in_bus(bus: Seq<Dbc>, id: u32, n: int) -> Option<(int, int)>
    decreases n,
{
    if n <= 0 {
        None
    } else {
        match last_message(bus[n - 1].messages@, id, bus[n - 1].messages@.len() as int) {
            Some(m) => Some((n - 1, m)),
            None => message_in_bus(bus, id, n - 1),
        }
    }
}

/// Value of the multiplexor switch of a message in frame data `data`; 0 for a
/// message without switch; none when the switch cannot be read.
pub open spec fn switch_value(sw: MuxSwitch, data: Seq<u8>) -> Option<u64> {
    match sw {
        MuxSwitch::NoSwitch => Some(0),
        MuxSwitch::Switch { start_bit, bit_count, byte_order } => {
            if start_bit > i64::MAX {
                None
            } else {
                extract_spec(data, start_bit as int, bit_count as int, byte_order == ByteOrder::BigEndian)
            }
        },
        MuxSwitch::Unsupported => None,
    }
}

/// Whether a signal is present in a frame whose switch holds `mux`.
pub open spec fn selected(sig: SignalDesc, mux: u64) -> bool {
    match sig.multiplex {
        Multiplex::Plain | Multiplex::Multiplexor => true,
        Multiplex::MultiplexedSignal(k) => k == mux,
        Multiplex::Other => false,
    }
}

/// One decoded point: signal name, time relative to the first frame, value.
pub struct Sample {
    pub name: String,
    pub time_ns: i128,
    pub value: Reading,
}

pub struct SampleModel {
    pub name: Seq<char>,
    pub time_ns: int,
    pub value: Reading,
}

impl View for Sample {
    type V = SampleModel;

    open spec fn view(&self) -> SampleModel {
        SampleModel { name: self.name@, time_ns: self.time_ns as int, value: self.value }
    }
}

pub open spec fn samples_view(v: Seq<Sample>) -> Seq<SampleModel> {
    v.map_values(|s: Sample| s@)
}

/// Points that the first `n` signals of a message on bus `b` give for frame
/// data `data` with switch value `mux` at time `t`, in signal order.
pub open spec fn message_samples(
    buses: Seq<Vec<Dbc>>,
    b: int,
    sigs: Seq<SignalDesc>,
    n: int,
    data: Seq<u8>,
    mux: u64,
    t: int,
) -> Seq<SampleModel>
    decreases n,
{
    if n <= 0 {
        Seq::empty()
    } else {
        let prev = message_samples(buses, b, sigs, n - 1, data, mux, t);
        let s = sigs[n - 1];
        if claims(buses, b, s.name@) && selected(s, mux) {
            match reading_of(data, s) {
                Some(r) => prev.push(SampleModel { name: s.name@, time_ns: t, value: r }),
                None => prev,
            }
        } else {
            prev
        }
    }
}

/// Points decoded from frame `f` when the first accepted frame was stamped
/// `epoch`. Frames on a bus without databases, and frames of unknown
/// messages, give none.
pub open spec fn frame_samples(buses: Seq<Vec<Dbc>>, epoch: int, f: FrameModel) -> Seq<SampleModel> {
    let b = f.channel as int;
    if b >= buses.len() {
        Seq::empty()
    } else {
        match message_in_bus(buses[b]@, f.arbitration_id, buses[b]@.len() as int) {
            None => Seq::empty(),
            Some((d, m)) => {
                let msg = buses[b]@[d].messages@[m];
                match switch_value(msg.switch, f.data) {
                    None => Seq::empty(),
                    Some(mux) => message_samples(
                        buses,
                        b,
                        msg.signals@,
                        msg.signals@.len() as int,
                        f.data,
                        mux,
                        f.timestamp_ns - epoch,
                    ),
                }
            },
        }
    }
}

/// Whether frame `f` is accepted: it falls on a bus with databases, and one of
/// them defines its message.
pub open spec fn accepted(buses: Seq<Vec<Dbc>>, f: FrameModel) -> bool {
    &&& (f.channel as int) < buses.len()
    &&& message_in_bus(buses[f.channel as int]@, f.arbitration_id, buses[f.channel as int]@.len() as int) is Some
}

/// The time origin after frame `f`: the stamp of the first accepted frame.
pub open spec fn next_epoch(buses: Seq<Vec<Dbc>>, epoch: Option<int>, f: FrameModel) -> Option<int> {
    if epoch is None && accepted(buses, f) {
        Some(f.timestamp_ns)
    } else {
        epoch
    }
}

fn message_defines(msg: &DbcMessage, name: &String) -> (r: bool)
    ensures
        r == exists|s: int| 0 <= s < msg.signals@.len() && #[trigger] msg.signals@[s].name@ == name@,
{
    let mut s: usize = 0;
    while s < msg.signals.len()
        invariant
            s <= msg.signals@.len(),
            forall|j: int| 0 <= j < s ==> msg.signals@[j].name@ != name@,
        decreases msg.signals@.len() - s,
    {
        if msg.signals[s].name == *name {
            return true;
        }
        s = s + 1;
    }
    false
}

fn bus_defines(bus: &Vec<Dbc>, name: &String) -> (r: bool)
    ensures
        r == defines(bus@, name@),
{
    let mut d: usize = 0;
    while d < bus.len()
        invariant
            d <= bus@.len(),
            forall|i: int, m: int, s: int|
                0 <= i < d && 0 <= m < bus@[i].messages@.len() && 0 <= s < bus@[i].messages@[m].signals@.len()
                    ==> #[trigger] bus@[i].messages@[m].signals@[s].name@ != name@,
        decreases bus@.len() - d,
    {
        let mut m: usize = 0;
        while m < bus[d].messages.len()
            invariant
                d < bus@.len(),
                m <= bus@[d as int].messages@.len(),
                forall|i: int, mm: int, s: int|
                    0 <= i < d && 0 <= mm < bus@[i].messages@.len() && 0 <= s < bus@[i].messages@[mm].signals@.len()
                        ==> #[trigger] bus@[i].messages@[mm].signals@[s].name@ != name@,
                forall|mm: int, s: int|
                    0 <= mm < m && 0 <= s < bus@[d as int].messages@[mm].signals@.len()
                        ==> #[trigger] bus@[d as int].messages@[mm].signals@[s].name@ != name@,
            decreases bus@[d as int].messages@.len() - m,
        {
            if message_defines(&bus[d].messages[m], name) {
                return true;
            }
            m = m + 1;
        }
        d = d + 1;
    }
    false
}

/// Whether bus `b` claims signals named `name`.
fn bus_claims(buses: &Vec<Vec<Dbc>>, b: usize, name: &String) -> (r: bool)
    requires
        b <= buses@.len(),
    ensures
        r == claims(buses@, b as int, name@),
{
    let mut c: usize = 0;
    while c < b
        invariant
            b <= buses@.len(),
            c <= b,
            forall|i: int| 0 <= i < c ==> !defines(#[trigger] buses@[i]@, name@),
        decreases b - c,
    {
        if bus_defines(&buses[c], name) {
            return false;
        }
        c = c + 1;
    }
    true
}

/// `home` records, for every signal of every message of every database of
/// every bus, whether that bus claims the signal's name.
pub open spec fn home_table(buses: Seq<Vec<Dbc>>, home: Seq<Vec<Vec<Vec<bool>>>>) -> bool {
    &&& home.len() == buses.len()
    &&& forall|b: int| 0 <= b < buses.len() ==> #[trigger] home[b]@.len() == buses[b]@.len()
    &&& forall|b: int, d: int|
        0 <= b < buses.len() && 0 <= d < buses[b]@.len() ==> #[trigger] home[b]@[d]@.len() == buses[b]@[d].messages@.len()
    &&& forall|b: int, d: int, m: int|
        0 <= b < buses.len() && 0 <= d < buses[b]@.len() && 0 <= m < buses[b]@[d].messages@.len()
            ==> #[trigger] home[b]@[d]@[m]@.len() == buses[b]@[d].messages@[m].signals@.len()
    &&& forall|b: int, d: int, m: int, s: int|
        0 <= b < buses.len() && 0 <= d < buses[b]@.len() && 0 <= m < buses[b]@[d].messages@.len()
            && 0 <= s < buses[b]@[d].messages@[m].signals@.len()
            ==> #[trigger] home[b]@[d]@[m]@[s] == claims(buses, b, buses[b]@[d].messages@[m].signals@[s].name@)
}

fn message_home(buses: &Vec<Vec<Dbc>>, b: usize, msg: &DbcMessage) -> (r: Vec<bool>)
    requires
        b < buses@.len(),
    ensures
        r@.len() == msg.signals@.len(),
        forall|s: int| 0 <= s < r@.len() ==> #[trigger] r@[s] == claims(buses@, b as int, msg.signals@[s].name@),
{
    let mut r: Vec<bool> = Vec::new();
    let mut s: usize = 0;
    while s < msg.signals.len()
        invariant
            b < buses@.len(),
            s <= msg.signals@.len(),
            r@.len() == s,
            forall|j: int| 0 <= j < s ==> #[trigger] r@[j] == claims(buses@, b as int, msg.signals@[j].name@),
        decreases msg.signals@.len() - s,
    {
        r.push(bus_claims(buses, b, &msg.signals[s].name));
        s = s + 1;
    }
    r
}

fn dbc_home(buses: &Vec<Vec<Dbc>>, b: usize, dbc: &Dbc) -> (r: Vec<Vec<bool>>)
    requires
        b < buses@.len(),
    ensures
        r@.len() == dbc.messages@.len(),
        forall|m: int| 0 <= m < r@.len() ==> #[trigger] r@[m]@.len() == dbc.messages@[m].signals@.len(),
        forall|m: int, s: int| 0 <= m < r@.len() && 0 <= s < dbc.messages@[m].signals@.len()
            ==> #[trigger] r@[m]@[s] == claims(buses@, b as int, dbc.messages@[m].signals@[s].name@),
{
    let mut r: Vec<Vec<bool>> = Vec::new();
    let mut m: usize = 0;
    while m < dbc.messages.len()
        invariant
            b < buses@.len(),
            m <= dbc.messages@.len(),
            r@.len() == m,
            forall|j: int| 0 <= j < m ==> #[trigger] r@[j]@.len() == dbc.messages@[j].signals@.len(),
            forall|j: int, s: int| 0 <= j < m && 0 <= s < dbc.messages@[j].signals@.len()
                ==> #[trigger] r@[j]@[s] == claims(buses@, b as int, dbc.messages@[j].signals@[s].name@),
        decreases dbc.messages@.len() - m,
    {
        r.push(message_home(buses, b, &dbc.messages[m]));
        m = m + 1;
    }
    r
}

fn bus_home(buses: &Vec<Vec<Dbc>>, b: usize) -> (r: Vec<Vec<Vec<bool>>>)
    requires
        b < buses@.len(),
    ensures
        r@.len() == buses@[b as int]@.len(),
        forall|d: int| 0 <= d < r@.len() ==> #[trigger] r@[d]@.len() == buses@[b as int]@[d].messages@.len(),
        forall|d: int, m: int| 0 <= d < r@.len() && 0 <= m < buses@[b as int]@[d].messages@.len()
            ==> #[trigger] r@[d]@[m]@.len() == buses@[b as int]@[d].messages@[m].signals@.len(),
        forall|d: int, m: int, s: int| 0 <= d < r@.len() && 0 <= m < buses@[b as int]@[d].messages@.len()
            && 0 <= s < buses@[b as int]@[d].messages@[m].signals@.len()
            ==> #[trigger] r@[d]@[m]@[s] == claims(buses@, b as int, buses@[b as int]@[d].messages@[m].signals@[s].name@),
{
    let mut r: Vec<Vec<Vec<bool>>> = Vec::new();
    let mut d: usize = 0;
    let ghost bus = buses@[b as int]@;
    while d < buses[b].len()
        invariant
            b < buses@.len(),
            bus == buses@[b as int]@,
            d <= bus.len(),
            r@.len() == d,
            forall|j: int| 0 <= j < d ==> #[trigger] r@[j]@.len() == bus[j].messages@.len(),
            forall|j: int, m: int| 0 <= j < d && 0 <= m < bus[j].messages@.len()
                ==> #[trigger] r@[j]@[m]@.len() == bus[j].messages@[m].signals@.len(),
            forall|j: int, m: int, s: int| 0 <= j < d && 0 <= m < bus[j].messages@.len()
                && 0 <= s < bus[j].messages@[m].signals@.len()
                ==> #[trigger] r@[j]@[m]@[s] == claims(buses@, b as int, bus[j].messages@[m].signals@[s].name@),
        decreases bus.len() - d,
    {
        r.push(dbc_home(buses, b, &buses[b][d]));
        d = d + 1;
    }
    r
}

fn all_home(buses: &Vec<Vec<Dbc>>) -> (r: Vec<Vec<Vec<Vec<bool>>>>)
    ensures
        home_table(buses@, r@),
{
    let mut r: Vec<Vec<Vec<Vec<bool>>>> = Vec::new();
    let mut b: usize = 0;
    while b < buses.len()
        invariant
            b <= buses@.len(),
            r@.len() == b,
            forall|i: int| 0 <= i < b ==> #[trigger] r@[i]@.len() == buses@[i]@.len(),
            forall|i: int, d: int| 0 <= i < b && 0 <= d < buses@[i]@.len()
                ==> #[trigger] r@[i]@[d]@.len() == buses@[i]@[d].messages@.len(),
            forall|i: int, d: int, m: int| 0 <= i < b && 0 <= d < buses@[i]@.len() && 0 <= m < buses@[i]@[d].messages@.len()
                ==> #[trigger] r@[i]@[d]@[m]@.len() == buses@[i]@[d].messages@[m].signals@.len(),
            forall|i: int, d: int, m: int, s: int| 0 <= i < b && 0 <= d < buses@[i]@.len()
                && 0 <= m < buses@[i]@[d].messages@.len() && 0 <= s < buses@[i]@[d].messages@[m].signals@.len()
                ==> #[trigger] r@[i]@[d]@[m]@[s] == claims(buses@, i, buses@[i]@[d].messages@[m].signals@[s].name@),
        decreases buses@.len() - b,
    {
        r.push(bus_home(buses, b));
        b = b + 1;
    }
    r
}

/// `map` holds `o` for key `id`, or no entry when `o` is none.
pub open spec fn entry_is(map: Map<u32, (usize, usize)>, id: u32, o: Option<(int, int)>) -> bool {
    match o {
        Some((d, m)) => map.contains_key(id) && map[id] == (d as usize, m as usize),
        None => !map.contains_key(id),
    }
}

/// `map` gives, for every message identifier, the definition in force on `bus`.
pub open spec fn index_of_bus(bus: Seq<Dbc>, map: Map<u32, (usize, usize)>) -> bool {
    forall|id: u32| entry_is(map, id, #[trigger] message_in_bus(bus, id, bus.len() as int))
}

fn bus_message_index(bus: &Vec<Dbc>) -> (r: HashMap<u32, (usize, usize)>)
    ensures
        index_of_bus(bus@, r@),
{
    broadcast use vstd::std_specs::hash::group_hash_axioms;
    let mut map: HashMap<u32, (usize, usize)> = HashMap::new();
    let mut d: usize = 0;
    while d < bus.len()
        invariant
            d <= bus@.len(),
            forall|id: u32| entry_is(map@, id, #[trigger] message_in_bus(bus@, id, d as int)),
        decreases bus@.len() - d,
    {
        let msgs = &bus[d].messages;
        let mut m: usize = 0;
        while m < msgs.len()
            invariant
                d < bus@.len(),
                msgs@ == bus@[d as int].messages@,
                m <= msgs@.len(),
                forall|id: u32| #[trigger] message_in_bus(bus@, id, d as int) == message_in_bus(bus@, id, d as int) ==>
                    entry_is(map@, id, match last_message(msgs@, id, m as int) {
                        Some(k) => Some((d as int, k)),
                        None => message_in_bus(bus@, id, d as int),
                    }),
            decreases msgs@.len() - m,
        {
            let x = msgs[m].id;
            let ghost before = map@;
            map.insert(x, (d, m));
            assert forall|id: u32| #[trigger] message_in_bus(bus@, id, d as int) == message_in_bus(bus@, id, d as int) implies
                entry_is(map@, id, match last_message(msgs@, id, m + 1) {
                    Some(k) => Some((d as int, k)),
                    None => message_in_bus(bus@, id, d as int),
                }) by {
                if id == x {
                    assert(last_message(msgs@, id, m + 1) == Some(m as int));
                } else {
                    assert(last_message(msgs@, id, m + 1) == last_message(msgs@, id, m as int));
                    assert(entry_is(before, id, match last_message(msgs@, id, m as int) {
                        Some(k) => Some((d as int, k)),
                        None => message_in_bus(bus@, id, d as int),
                    }));
                }
            }
            m = m + 1;
        }
        assert forall|id: u32| entry_is(map@, id, #[trigger] message_in_bus(bus@, id, d + 1)) by {
            assert(message_in_bus(bus@, id, d as int) == message_in_bus(bus@, id, d as int));
        }
        d = d + 1;
    }
    map
}

fn message_index(buses: &Vec<Vec<Dbc>>) -> (r: Vec<HashMap<u32, (usize, usize)>>)
    ensures
        r@.len() == buses@.len(),
        forall|b: int| 0 <= b < buses@.len() ==> index_of_bus(buses@[b]@, #[trigger] r@[b]@),
{
    let mut r: Vec<HashMap<u32, (usize, usize)>> = Vec::new();
    let mut b: usize = 0;
    while b < buses.len()
        invariant
            b <= buses@.len(),
            r@.len() == b,
            forall|j: int| 0 <= j < b ==> index_of_bus(buses@[j]@, #[trigger] r@[j]@),
        decreases buses@.len() - b,
    {
        r.push(bus_message_index(&buses[b]));
        b = b + 1;
    }
    r
}

fn read_switch(sw: MuxSwitch, data: &[u8]) -> (r: Option<u64>)
    ensures
        r == switch_value(sw, data@),
{
    match sw {
        MuxSwitch::NoSwitch => Some(0),
        MuxSwitch::Switch { start_bit, bit_count, byte_order } => {
            if start_bit > 0x7fff_ffff_ffff_ffff {
                return None;
            }
            if bit_count > 64 {
                return None;
            }
            extract_signal_raw(data, start_bit as i64, bit_count as i64, byte_order == ByteOrder::BigEndian)
        },
        MuxSwitch::Unsupported => None,
    }
}

fn is_selected(sig: &SignalDesc, mux: u64) -> (r: bool)
    ensures
        r == selected(*sig, mux),
{
    match sig.multiplex {
        Multiplex::Plain | Multiplex::Multiplexor => true,
        Multiplex::MultiplexedSignal(k) => k == mux,
        Multiplex::Other => false,
    }
}

/// Decodes frames against the databases of each bus. Bus `i` holds the
/// databases for channel `i`.
pub struct Decoder {
    buses: Vec<Vec<Dbc>>,
    home: Vec<Vec<Vec<Vec<bool>>>>,
    index: Vec<HashMap<u32, (usize, usize)>>,
    epoch: Option<i128>,
}

/// Bound on frame time stamps, in nanoseconds, within which relative times are
/// computed exactly.
pub open spec fn stamp_in_range(t: int) -> bool {
    -0x2000_0000_0000_0000_0000_0000_0000_0000 <= t <= 0x2000_0000_0000_0000_0000_0000_0000_0000
}

impl Decoder {
    pub closed spec fn wf(&self) -> bool {
        &&& home_table(self.buses@, self.home@)
        &&& self.index@.len() == self.buses@.len()
        &&& forall|b: int| 0 <= b < self.buses@.len() ==> index_of_bus(self.buses@[b]@, #[trigger] self.index@[b]@)
        &&& (self.epoch matches Some(e) ==> stamp_in_range(e as int))
    }

    /// The databases of each bus.
    pub closed spec fn buses(&self) -> Seq<Vec<Dbc>> {
        self.buses@
    }

    /// Time stamp of the first accepted frame, once there is one.
    pub closed spec fn epoch(&self) -> Option<int> {
        match self.epoch {
            Some(e) => Some(e as int),
            None => None,
        }
    }

    /// Indexes the databases of each bus.
    pub fn new(buses: Vec<Vec<Dbc>>) -> (r: Decoder)
        ensures
            r.wf(),
            r.buses() == buses@,
            r.epoch() is None,
    {
        let home = all_home(&buses);
        let index = message_index(&buses);
        Decoder { buses, home, index, epoch: None }
    }

    /// Number of buses.
    pub fn bus_count(&self) -> (r: usize)
        ensures
            r == self.buses().len(),
    {
        self.buses.len()
    }

    /// Decodes frame `frame`: the points of the signals of its message, in the
    /// order the message lists them, stamped relative to the first frame that
    /// fell on a bus with databases.
    pub fn decode_frame(&mut self, frame: &CanMessage) -> (r: Vec<Sample>)
        requires
            old(self).wf(),
            stamp_in_range(frame.timestamp_ns as int),
        ensures
            final(self).wf(),
            final(self).buses() == old(self).buses(),
            final(self).epoch() == next_epoch(old(self).buses(), old(self).epoch(), frame@),
            samples_view(r@) == (match final(self).epoch() {
                Some(e) => frame_samples(old(self).buses(), e, frame@),
                None => Seq::<SampleModel>::empty(),
            }),
    {
        let mut out: Vec<Sample> = Vec::new();
        assert(samples_view(out@) =~= Seq::<SampleModel>::empty());
        let b = frame.channel as usize;
        if b >= self.buses.len() {
            return out;
        }
        let ghost bus = self.buses@[b as int]@;
        let ghost found = message_in_bus(bus, frame.arbitration_id, bus.len() as int);
        let (d, m) = match self.index[b].get(&frame.arbitration_id) {
            Some(found) => *found,
            None => {
                proof {
                    broadcast use vstd::std_specs::hash::group_hash_axioms;
                    assert(entry_is(self.index@[b as int]@, frame.arbitration_id, found));
                }
                return out;
            },
        };
        proof {
            broadcast use vstd::std_specs::hash::group_hash_axioms;
            assert(entry_is(self.index@[b as int]@, frame.arbitration_id, found));
            lemma_message_in_bus_range(
                self.buses@[b as int]@,
                frame.arbitration_id,
                self.buses@[b as int]@.len() as int,
            );
            assert(self.index@[b as int]@.contains_key(frame.arbitration_id));
            assert(self.index@[b as int]@[frame.arbitration_id] == (d, m));
            assert(found is Some);
            let (fd, fm) = found->0;
            assert(0 <= fd < bus.len() && 0 <= fm < bus[fd].messages@.len());
            assert(bus.len() == self.buses@[b as int].len());
            assert(bus[fd].messages@.len() == bus[fd].messages.len());
            assert((fd as usize, fm as usize) == (d, m));
            assert(fd == d && fm == m);
            assert(found == Some((d as int, m as int)));
        }
        let epoch = match self.epoch {
            Some(e) => {
                assert(stamp_in_range(e as int));
                e
            },
            None => {
                self.epoch = Some(frame.timestamp_ns);
                frame.timestamp_ns
            },
        };
        let t = frame.timestamp_ns - epoch;
        let msg = &self.buses[b][d].messages[m];
        let mux = match read_switch(msg.switch, frame.data.as_slice()) {
            Some(v) => v,
            None => {
                return out;
            },
        };
        let ghost buses = self.buses@;
        let ghost sigs = msg.signals@;
        let mut s: usize = 0;
        while s < msg.signals.len()
            invariant
                buses == self.buses@,
                home_table(buses, self.home@),
                b < buses.len(),
                d < buses[b as int]@.len(),
                m < buses[b as int]@[d as int].messages@.len(),
                sigs == buses[b as int]@[d as int].messages@[m as int].signals@,
                *msg == buses[b as int]@[d as int].messages@[m as int],
                s <= sigs.len(),
                samples_view(out@) == message_samples(buses, b as int, sigs, s as int, frame.data@, mux, t as int),
            decreases sigs.len() - s,
        {
            let sig = &msg.signals[s];
            let ghost before = out@;
            if self.home[b][d][m][s] && is_selected(sig, mux) {
                match decode_signal(frame.data.as_slice(), sig) {
                    Some(value) => {
                        out.push(Sample { name: sig.name.clone(), time_ns: t, value });
                        assert(samples_view(out@) =~= samples_view(before).push(out@[out@.len() - 1]@));
                    },
                    None => {},
                }
            }
            s = s + 1;
        }
        out
    }
}

proof fn lemma_message_samples_claimed(
    buses: Seq<Vec<Dbc>>,
    b: int,
    sigs: Seq<SignalDesc>,
    n: int,
    data: Seq<u8>,
    mux: u64,
    t: int,
)
    requires
        n <= sigs.len(),
    ensures
        forall|i: int| 0 <= i < message_samples(buses, b, sigs, n, data, mux, t).len() ==> {
            let nm = #[trigger] message_samples(buses, b, sigs, n, data, mux, t)[i].name;
            claims(buses, b, nm) && exists|s: int| 0 <= s < n && #[trigger] sigs[s].name@ == nm
        },
    decreases n,
{
    if n > 0 {
        lemma_message_samples_claimed(buses, b, sigs, n - 1, data, mux, t);
        let prev = message_samples(buses, b, sigs, n - 1, data, mux, t);
        let cur = message_samples(buses, b, sigs, n, data, mux, t);
        assert forall|i: int| 0 <= i < cur.len() implies {
            let nm = #[trigger] cur[i].name;
            claims(buses, b, nm) && exists|s: int| 0 <= s < n && #[trigger] sigs[s].name@ == nm
        } by {
            if i < prev.len() {
                assert(cur[i] == prev[i]);
                let nm = prev[i].name;
                let s = choose|s: int| 0 <= s < n - 1 && #[trigger] sigs[s].name@ == nm;
                assert(sigs[s].name@ == nm);
            } else {
                assert(sigs[n - 1].name@ == cur[i].name);
            }
        }
    }
}

/// A signal name defined on several buses is decoded from the first of them
/// only: every point decoded from a frame belongs to a signal that the frame's
/// bus defines and that no earlier bus defines, so a frame on any later bus
/// gives no point of that name.
pub proof fn lemma_first_bus_only(buses: Seq<Vec<Dbc>>, epoch: int, f: FrameModel)
    ensures
        forall|i: int| 0 <= i < frame_samples(buses, epoch, f).len() ==> {
            let nm = #[trigger] frame_samples(buses, epoch, f)[i].name;
            &&& (f.channel as int) < buses.len()
            &&& defines(buses[f.channel as int]@, nm)
            &&& forall|c: int| 0 <= c < f.channel ==> !defines(#[trigger] buses[c]@, nm)
        },
{
    let b = f.channel as int;
    if b < buses.len() {
        match message_in_bus(buses[b]@, f.arbitration_id, buses[b]@.len() as int) {
            None => {},
            Some((d, m)) => {
                lemma_message_in_bus_range(buses[b]@, f.arbitration_id, buses[b]@.len() as int);
                let msg = buses[b]@[d].messages@[m];
                match switch_value(msg.switch, f.data) {
                    None => {},
                    Some(mux) => {
                        let sigs = msg.signals@;
                        let t = f.timestamp_ns - epoch;
                        lemma_message_samples_claimed(buses, b, sigs, sigs.len() as int, f.data, mux, t);
                        let out = frame_samples(buses, epoch, f);
                        assert forall|i: int| 0 <= i < out.len() implies defines(buses[b]@, #[trigger] out[i].name) by {
                            let nm = out[i].name;
                            let s = choose|s: int| 0 <= s < sigs.len() && #[trigger] sigs[s].name@ == nm;
                            assert(buses[b]@[d].messages@[m].signals@[s].name@ == nm);
                        }
                    },
                }
            },
        }
    }
}

proof fn lemma_message_in_bus_range(bus: Seq<Dbc>, id: u32, n: int)
    requires
        n <= bus.len(),
    ensures
        message_in_bus(bus, id, n) matches Some((d, m)) ==> 0 <= d < bus.len() && 0 <= m < bus[d].messages@.len(),
    decreases n,
{
    if n > 0 {
        lemma_last_message_range(bus[n - 1].messages@, id, bus[n - 1].messages@.len() as int);
        lemma_message_in_bus_range(bus, id, n - 1);
    }
}

proof fn lemma_last_message_range(msgs: Seq<DbcMessage>, id: u32, n: int)
    requires
        n <= msgs.len(),
    ensures
        last_message(msgs, id, n) matches Some(m) ==> 0 <= m < n,
    decreases n,
{
    if n > 0 {
        lemma_last_message_range(msgs, id, n - 1);
    }
}

proof fn lemma_message_samples_gated(
    buses: Seq<Vec<Dbc>>,
    b: int,
    sigs: Seq<SignalDesc>,
    n: int,
    data: Seq<u8>,
    mux: u64,
    t: int,
)
    requires
        0 <= n <= sigs.len(),
    ensures
        forall|i: int| #![trigger message_samples(buses, b, sigs, n, data, mux, t)[i]]
            0 <= i < message_samples(buses, b, sigs, n, data, mux, t).len() ==> exists|s: int|
            0 <= s < n && #[trigger] sigs[s].name@ == message_samples(buses, b, sigs, n, data, mux, t)[i].name
                && selected(sigs[s], mux) && reading_of(data, sigs[s]) == Some(
                message_samples(buses, b, sigs, n, data, mux, t)[i].value,
            ),
        forall|s: int|
            0 <= s < n && claims(buses, b, sigs[s].name@) && selected(sigs[s], mux) && #[trigger] reading_of(
                data,
                sigs[s],
            ) is Some ==> exists|i: int|
                0 <= i < message_samples(buses, b, sigs, n, data, mux, t).len() && message_samples(
                    buses,
                    b,
                    sigs,
                    n,
                    data,
                    mux,
                    t,
                )[i] == (SampleModel { name: sigs[s].name@, time_ns: t, value: reading_of(data, sigs[s])->0 }),
    decreases n,
{
    if n > 0 {
        lemma_message_samples_gated(buses, b, sigs, n - 1, data, mux, t);
        let prev = message_samples(buses, b, sigs, n - 1, data, mux, t);
        let cur = message_samples(buses, b, sigs, n, data, mux, t);
        assert forall|i: int| #![trigger cur[i]] 0 <= i < cur.len() implies exists|s: int|
            0 <= s < n && #[trigger] sigs[s].name@ == cur[i].name && selected(sigs[s], mux) && reading_of(data, sigs[s])
                == Some(cur[i].value) by {
            if i < prev.len() {
                assert(cur[i] == prev[i]);
                let s = choose|s: int|
                    0 <= s < n - 1 && #[trigger] sigs[s].name@ == prev[i].name && selected(sigs[s], mux) && reading_of(
                        data,
                        sigs[s],
                    ) == Some(prev[i].value);
                assert(sigs[s].name@ == cur[i].name);
            } else {
                assert(sigs[n - 1].name@ == cur[i].name);
            }
        }
        assert forall|s: int|
            0 <= s < n && claims(buses, b, sigs[s].name@) && selected(sigs[s], mux) && #[trigger] reading_of(
                data,
                sigs[s],
            ) is Some implies exists|i: int|
                0 <= i < cur.len() && cur[i] == (SampleModel {
                    name: sigs[s].name@,
                    time_ns: t,
                    value: reading_of(data, sigs[s])->0,
                }) by {
            if s < n - 1 {
                let i = choose|i: int|
                    0 <= i < prev.len() && prev[i] == (SampleModel {
                        name: sigs[s].name@,
                        time_ns: t,
                        value: reading_of(data, sigs[s])->0,
                    });
                assert(cur[i] == prev[i]);
            } else {
                assert(cur[prev.len() as int] == (SampleModel {
                    name: sigs[s].name@,
                    time_ns: t,
                    value: reading_of(data, sigs[s])->0,
                }));
            }
        }
    }
}

/// Multiplex gating: in a frame whose message switch reads `mux`, every point
/// comes from a signal of the message that `mux` selects (plain signals, the
/// switch itself, and signals multiplexed on `mux`), with that signal's
/// decoded value; and every such signal that the frame's bus claims and that
/// decodes gives its point. A signal multiplexed on another value gives none.
pub proof fn lemma_multiplex_gating(buses: Seq<Vec<Dbc>>, epoch: int, f: FrameModel, d: int, m: int, mux: u64)
    requires
        (f.channel as int) < buses.len(),
        message_in_bus(buses[f.channel as int]@, f.arbitration_id, buses[f.channel as int]@.len() as int) == Some((d, m)),
        switch_value(buses[f.channel as int]@[d].messages@[m].switch, f.data) == Some(mux),
    ensures
        ({
            let sigs = buses[f.channel as int]@[d].messages@[m].signals@;
            let out = frame_samples(buses, epoch, f);
            &&& forall|i: int| #![trigger out[i]] 0 <= i < out.len() ==> exists|s: int|
                0 <= s < sigs.len() && #[trigger] sigs[s].name@ == out[i].name && selected(sigs[s], mux)
                    && reading_of(f.data, sigs[s]) == Some(out[i].value)
            &&& forall|s: int|
                0 <= s < sigs.len() && claims(buses, f.channel as int, sigs[s].name@) && selected(sigs[s], mux)
                    && #[trigger] reading_of(f.data, sigs[s]) is Some ==> exists|i: int|
                    0 <= i < out.len() && out[i] == (SampleModel {
                        name: sigs[s].name@,
                        time_ns: f.timestamp_ns - epoch,
                        value: reading_of(f.data, sigs[s])->0,
                    })
        }),
{
    let b = f.channel as int;
    let sigs = buses[b]@[d].messages@[m].signals@;
    lemma_message_samples_gated(buses, b, sigs, sigs.len() as int, f.data, mux, f.timestamp_ns - epoch);
}

/// Points named `name` in `ss`.
pub open spec fn count_named(ss: Seq<SampleModel>, name: Seq<char>) -> nat
    decreases ss.len(),
{
    if ss.len() == 0 {
        0
    } else {
        count_named(ss.drop_last(), name) + (if ss.last().name == name { 1nat } else { 0nat })
    }
}

/// Points decoded from a run of frames, in order, with time origin `epoch`.
pub open spec fn run_samples(buses: Seq<Vec<Dbc>>, epoch: int, frames: Seq<FrameModel>) -> Seq<SampleModel>
    decreases frames.len(),
{
    if frames.len() == 0 {
        Seq::empty()
    } else {
        run_samples(buses, epoch, frames.drop_last()) + frame_samples(buses, epoch, frames.last())
    }
}

/// Frames of a run whose switch `sw` reads `k`.
pub open spec fn frames_switched(sw: MuxSwitch, frames: Seq<FrameModel>, k: u64) -> nat
    decreases frames.len(),
{
    if frames.len() == 0 {
        0
    } else {
        frames_switched(sw, frames.drop_last(), k) + (if switch_value(sw, frames.last().data) == Some(k) {
            1nat
        } else {
            0nat
        })
    }
}

proof fn lemma_count_named_append(a: Seq<SampleModel>, b: Seq<SampleModel>, name: Seq<char>)
    ensures
        count_named(a + b, name) == count_named(a, name) + count_named(b, name),
    decreases b.len(),
{
    if b.len() == 0 {
        assert(a + b =~= a);
    } else {
        assert((a + b).drop_last() =~= a + b.drop_last());
        assert((a + b).last() == b.last());
        lemma_count_named_append(a, b.drop_last(), name);
    }
}

proof fn lemma_message_count(
    buses: Seq<Vec<Dbc>>,
    b: int,
    sigs: Seq<SignalDesc>,
    n: int,
    data: Seq<u8>,
    mux: u64,
    t: int,
    s1: int,
)
    requires
        0 <= n <= sigs.len(),
        0 <= s1 < sigs.len(),
        forall|j: int| 0 <= j < sigs.len() && j != s1 ==> #[trigger] sigs[j].name@ != sigs[s1].name@,
    ensures
        count_named(message_samples(buses, b, sigs, n, data, mux, t), sigs[s1].name@) == (if s1 < n && claims(
            buses,
            b,
            sigs[s1].name@,
        ) && selected(sigs[s1], mux) && reading_of(data, sigs[s1]) is Some {
            1nat
        } else {
            0nat
        }),
    decreases n,
{
    if n > 0 {
        lemma_message_count(buses, b, sigs, n - 1, data, mux, t, s1);
        let prev = message_samples(buses, b, sigs, n - 1, data, mux, t);
        let cur = message_samples(buses, b, sigs, n, data, mux, t);
        if cur.len() > prev.len() {
            assert(cur.drop_last() =~= prev);
            assert(cur.last().name == sigs[n - 1].name@);
        } else {
            assert(cur == prev);
        }
    }
}

/// Multiplex gating over a run of frames of one message: when a signal is the
/// only one of its name in the message, is multiplexed on `k`, is claimed by
/// the frames' bus and decodes in every frame, the run gives exactly as many
/// points of that name as it has frames whose switch reads `k`.
pub proof fn lemma_multiplex_counts(
    buses: Seq<Vec<Dbc>>,
    epoch: int,
    frames: Seq<FrameModel>,
    c: int,
    d: int,
    m: int,
    s1: int,
    k: u64,
)
    requires
        0 <= c < buses.len(),
        0 <= d < buses[c]@.len(),
        0 <= m < buses[c]@[d].messages@.len(),
        0 <= s1 < buses[c]@[d].messages@[m].signals@.len(),
        buses[c]@[d].messages@[m].signals@[s1].multiplex == Multiplex::MultiplexedSignal(k),
        forall|j: int|
            0 <= j < buses[c]@[d].messages@[m].signals@.len() && j != s1
                ==> #[trigger] buses[c]@[d].messages@[m].signals@[j].name@ != buses[c]@[d].messages@[m].signals@[s1].name@,
        claims(buses, c, buses[c]@[d].messages@[m].signals@[s1].name@),
        forall|i: int| 0 <= i < frames.len() ==> {
            &&& (#[trigger] frames[i]).channel == c
            &&& message_in_bus(buses[c]@, frames[i].arbitration_id, buses[c]@.len() as int) == Some((d, m))
            &&& switch_value(buses[c]@[d].messages@[m].switch, frames[i].data) is Some
            &&& reading_of(frames[i].data, buses[c]@[d].messages@[m].signals@[s1]) is Some
        },
    ensures
        count_named(run_samples(buses, epoch, frames), buses[c]@[d].messages@[m].signals@[s1].name@)
            == frames_switched(buses[c]@[d].messages@[m].switch, frames, k),
    decreases frames.len(),
{
    if frames.len() > 0 {
        let msg = buses[c]@[d].messages@[m];
        let sigs = msg.signals@;
        let name = sigs[s1].name@;
        let init = frames.drop_last();
        let f = frames.last();
        assert forall|i: int| 0 <= i < init.len() implies {
            &&& (#[trigger] init[i]).channel == c
            &&& message_in_bus(buses[c]@, init[i].arbitration_id, buses[c]@.len() as int) == Some((d, m))
            &&& switch_value(msg.switch, init[i].data) is Some
            &&& reading_of(init[i].data, sigs[s1]) is Some
        } by {
            assert(init[i] == frames[i]);
        }
        lemma_multiplex_counts(buses, epoch, init, c, d, m, s1, k);
        assert(f == frames[frames.len() - 1]);
        let mux = switch_value(msg.switch, f.data)->0;
        lemma_message_count(buses, c, sigs, sigs.len() as int, f.data, mux, f.timestamp_ns - epoch, s1);
        lemma_count_named_append(run_samples(buses, epoch, init), frame_samples(buses, epoch, f), name);
    }
}

proof fn lemma_count_absent(ss: Seq<SampleModel>, name: Seq<char>)
    requires
        forall|i: int| 0 <= i < ss.len() ==> (#[trigger] ss[i]).name != name,
    ensures
        count_named(ss, name) == 0,
    decreases ss.len(),
{
    if ss.len() > 0 {
        assert(ss.last() == ss[ss.len() - 1]);
        assert forall|i: int| 0 <= i < ss.drop_last().len() implies (#[trigger] ss.drop_last()[i]).name != name by {
            assert(ss.drop_last()[i] == ss[i]);
        }
        lemma_count_absent(ss.drop_last(), name);
    }
}

/// A signal name belongs to the first bus that defines it, over a whole run:
/// when a bus `a` defines `name`, frames on any later bus give no point of
/// that name.
pub proof fn lemma_later_bus_gives_nothing(
    buses: Seq<Vec<Dbc>>,
    epoch: int,
    frames: Seq<FrameModel>,
    a: int,
    name: Seq<char>,
)
    requires
        0 <= a < buses.len(),
        defines(buses[a]@, name),
        forall|i: int| 0 <= i < frames.len() ==> a < (#[trigger] frames[i]).channel,
    ensures
        count_named(run_samples(buses, epoch, frames), name) == 0,
    decreases frames.len(),
{
    if frames.len() > 0 {
        let init = frames.drop_last();
        let f = frames.last();
        assert forall|i: int| 0 <= i < init.len() implies a < (#[trigger] init[i]).channel by {
            assert(init[i] == frames[i]);
        }
        lemma_later_bus_gives_nothing(buses, epoch, init, a, name);
        assert(f == frames[frames.len() - 1]);
        lemma_first_bus_only(buses, epoch, f);
        let out = frame_samples(buses, epoch, f);
        assert forall|i: int| 0 <= i < out.len() implies (#[trigger] out[i]).name != name by {
            if out[i].name == name {
                assert(!defines(buses[a]@, name));
            }
        }
        lemma_count_absent(out, name);
        lemma_count_named_append(run_samples(buses, epoch, init), out, name);
    }
}

} // verus!

//! Per-signal time series, their sorting by time, and their encoding as a
//! byte stream.

use vstd::prelude::*;
use vstd::arithmetic::div_mod::lemma_div_denominator;
use vstd::utf8::{decode_utf8, encode_utf8, encode_utf8_decode_utf8};

verus! {

/// Value type of a series, fixed by its first point.
#[derive(Debug, Clone, Copy, PartialEq, Eq, Structural)]
pub enum Kind {
    I64,
    U64,
    /// IEEE-754 binary64 numbers, held as their encodings.
    F64,
    Str,
}

/// Tag of a kind in the stream.
pub open spec fn kind_tag(k: Kind) -> u8 {
    match k {
        Kind::I64 => 1,
        Kind::U64 => 2,
        Kind::F64 => 3,
        Kind::Str => 4,
    }
}

/// One value of a series. `F64` holds the binary64 encoding of the number.
#[derive(Debug, Clone)]
pub enum Value {
    I64(i64),
    U64(u64),
    F64(u64),
    Str(String),
}

pub enum ValueModel {
    I64(i64),
    U64(u64),
    F64(u64),
    Str(Seq<char>),
}

impl View for Value {
    type V = ValueModel;

    open spec fn view(&self) -> ValueModel {
        match self {
            Value::I64(v) => ValueModel::I64(*v),
            Value::U64(v) => ValueModel::U64(*v),
            Value::F64(v) => ValueModel::F64(*v),
            Value::Str(s) => ValueModel::Str(s@),
        }
    }
}

pub open spec fn value_kind(v: ValueModel) -> Kind {
    match v {
        ValueModel::I64(_) => Kind::I64,
        ValueModel::U64(_) => Kind::U64,
        ValueModel::F64(_) => Kind::F64,
        ValueModel::Str(_) => Kind::Str,
    }
}

/// A point of a series. `timestamp` is the binary64 encoding of the time in
/// seconds.
#[derive(Debug, Clone)]
pub struct DataPoint<T> {
    pub timestamp: u64,
    pub value: T,
}

impl<T> DataPoint<T> {
    pub fn new(timestamp: u64, value: T) -> (r: Self)
        ensures
            r.timestamp == timestamp,
            r.value == value,
    {
        DataPoint { timestamp, value }
    }
}

pub struct PointModel {
    pub time: u64,
    pub value: ValueModel,
}

pub open spec fn points_view(v: Seq<DataPoint<Value>>) -> Seq<PointModel> {
    v.map_values(|p: DataPoint<Value>| PointModel { time: p.timestamp, value: p.value@ })
}

/// The points of one signal.
pub struct Series {
    name: String,
    kind: Kind,
    points: Vec<DataPoint<Value>>,
}

pub struct SeriesModel {
    pub name: Seq<char>,
    pub kind: Kind,
    pub points: Seq<PointModel>,
}

impl View for Series {
    type V = SeriesModel;

    closed spec fn view(&self) -> SeriesModel {
        SeriesModel { name: self.name@, kind: self.kind, points: points_view(self.points@) }
    }
}

pub open spec fn series_view(v: Seq<Series>) -> Seq<SeriesModel> {
    v.map_values(|s: Series| s@)
}

/// Series names are unique and every point has its series' kind.
pub open spec fn well_formed(s: Seq<SeriesModel>) -> bool {
    &&& forall|i: int, j: int| 0 <= i < j < s.len() ==> s[i].name != s[j].name
    &&& forall|i: int, k: int|
        0 <= i < s.len() && 0 <= k < s[i].points.len() ==> value_kind(#[trigger] s[i].points[k].value) == s[i].kind
}

pub open spec fn find_series(s: Seq<SeriesModel>, name: Seq<char>) -> Option<int> {
    if exists|i: int| 0 <= i < s.len() && s[i].name == name {
        Some(choose|i: int| 0 <= i < s.len() && s[i].name == name)
    } else {
        None
    }
}

/// The series after appending point `p` to the series named `name`, which
/// is created, with the kind of `p`, if there is none.
pub open spec fn pushed(s: Seq<SeriesModel>, name: Seq<char>, p: PointModel) -> Seq<SeriesModel> {
    match find_series(s, name) {
        Some(i) => s.update(i, SeriesModel { points: s[i].points.push(p), ..s[i] }),
        None => s.push(SeriesModel { name, kind: value_kind(p.value), points: seq![p] }),
    }
}

/// Key under which binary64 encodings are ordered: numeric order on numbers,
/// with -0 and +0 equal (both get the key of +0). Beyond numbers it follows
/// the IEEE-754 total order (NaNs with the sign bit set first, the others last).
pub open spec fn time_key(t: u64) -> int {
    if t < 0x8000_0000_0000_0000 {
        t + 0x8000_0000_0000_0000
    } else if t == 0x8000_0000_0000_0000 {
        0x8000_0000_0000_0000
    } else {
        0xffff_ffff_ffff_ffff - t
    }
}

pub fn time_order(t: u64) -> (r: u64)
    ensures
        r == time_key(t),
{
    if t < 0x8000_0000_0000_0000 {
        t + 0x8000_0000_0000_0000
    } else if t == 0x8000_0000_0000_0000 {
        0x8000_0000_0000_0000
    } else {
        0xffff_ffff_ffff_ffff - t
    }
}

/// `s` (sorted by time key) with `p` placed after every point whose key is not
/// greater than its own.
pub open spec fn insert_by_time(p: PointModel, s: Seq<PointModel>) -> Seq<PointModel>
    decreases s.len(),
{
    if s.len() == 0 {
        seq![p]
    } else if time_key(p.time) < time_key(s[0].time) {
        seq![p] + s
    } else {
        seq![s[0]] + insert_by_time(p, s.drop_first())
    }
}

/// The points ordered by time key, points with equal keys keeping their order.
pub open spec fn sorted_by_time(s: Seq<PointModel>) -> Seq<PointModel>
    decreases s.len(),
{
    if s.len() == 0 {
        s
    } else {
        insert_by_time(s.last(), sorted_by_time(s.drop_last()))
    }
}

pub open spec fn time_sorted(s: Seq<PointModel>) -> bool {
    forall|i: int, j: int| 0 <= i < j < s.len() ==> time_key(s[i].time) <= time_key(s[j].time)
}

/// Relies on `slice::sort_by_key`, which is stable: it orders the points by
/// key and keeps points with equal keys in the order they had, the one
/// arrangement that `sorted_by_time` describes.
#[verifier::external_body]
fn sort_points(v: &mut Vec<DataPoint<Value>>)
    ensures
        points_view(final(v)@) == sorted_by_time(points_view(old(v)@)),
{
    v.sort_by_key(|p| time_order(p.timestamp));
}

proof fn lemma_insert_by_time(p: PointModel, s: Seq<PointModel>)
    requires
        time_sorted(s),
    ensures
        time_sorted(insert_by_time(p, s)),
        insert_by_time(p, s).len() == s.len() + 1,
        forall|x: PointModel| #[trigger] insert_by_time(p, s).contains(x) ==> x == p || s.contains(x),
    decreases s.len(),
{
    let r = insert_by_time(p, s);
    if s.len() == 0 {
    } else if time_key(p.time) < time_key(s[0].time) {
        assert forall|i: int, j: int| 0 <= i < j < r.len() implies time_key(r[i].time) <= time_key(r[j].time) by {
            if i > 0 {
                assert(r[i] == s[i - 1] && r[j] == s[j - 1]);
            } else {
                assert(r[j] == s[j - 1]);
            }
        }
        assert forall|x: PointModel| #[trigger] r.contains(x) implies x == p || s.contains(x) by {
            let k = choose|k: int| 0 <= k < r.len() && r[k] == x;
            if k > 0 {
                assert(s[k - 1] == x);
            }
        }
    } else {
        let t = s.drop_first();
        assert(time_sorted(t));
        lemma_insert_by_time(p, t);
        let q = insert_by_time(p, t);
        assert forall|i: int, j: int| 0 <= i < j < r.len() implies time_key(r[i].time) <= time_key(r[j].time) by {
            if i == 0 {
                assert(r[j] == q[j - 1]);
                assert(q.contains(q[j - 1]));
                if q[j - 1] != p {
                    let k = choose|k: int| 0 <= k < t.len() && t[k] == q[j - 1];
                    assert(t[k] == s[k + 1]);
                }
            } else {
                assert(r[i] == q[i - 1] && r[j] == q[j - 1]);
            }
        }
        assert forall|x: PointModel| #[trigger] r.contains(x) implies x == p || s.contains(x) by {
            let k = choose|k: int| 0 <= k < r.len() && r[k] == x;
            if k > 0 {
                assert(q[k - 1] == x);
                assert(q.contains(x));
                if x != p {
                    let m = choose|m: int| 0 <= m < t.len() && t[m] == x;
                    assert(s[m + 1] == x);
                }
            }
        }
    }
}

proof fn lemma_sorted_by_time(s: Seq<PointModel>)
    ensures
        time_sorted(sorted_by_time(s)),
        sorted_by_time(s).len() == s.len(),
        forall|x: PointModel| #[trigger] sorted_by_time(s).contains(x) ==> s.contains(x),
    decreases s.len(),
{
    if s.len() > 0 {
        let t = s.drop_last();
        lemma_sorted_by_time(t);
        lemma_insert_by_time(s.last(), sorted_by_time(t));
        assert forall|x: PointModel| #[trigger] sorted_by_time(s).contains(x) implies s.contains(x) by {
            if x == s.last() {
                assert(s[s.len() - 1] == x);
            } else {
                assert(sorted_by_time(t).contains(x));
                let k = choose|k: int| 0 <= k < t.len() && t[k] == x;
                assert(s[k] == x);
            }
        }
    }
}

proof fn lemma_find_unique(ss: Seq<SeriesModel>, name: Seq<char>, i: int)
    requires
        well_formed(ss),
        0 <= i < ss.len(),
        ss[i].name == name,
    ensures
        find_series(ss, name) == Some(i),
{
    let c = choose|j: int| 0 <= j < ss.len() && ss[j].name == name;
    if c != i {
        if c < i {
            assert(ss[c].name != ss[i].name);
        } else {
            assert(ss[i].name != ss[c].name);
        }
    }
}

/// Whether two strings hold the same characters.
pub fn same_text(a: &str, b: &str) -> (r: bool)
    ensures
        r == (a@ == b@),
{
    let x = a.as_bytes();
    let y = b.as_bytes();
    if x.len() != y.len() {
        return false;
    }
    let mut i: usize = 0;
    while i < x.len()
        invariant
            x@.len() == y@.len(),
            x@ == encode_utf8(a@),
            y@ == encode_utf8(b@),
            i <= x@.len(),
            forall|j: int| 0 <= j < i ==> x@[j] == y@[j],
        decreases x@.len() - i,
    {
        if x[i] != y[i] {
            return false;
        }
        i = i + 1;
    }
    proof {
        assert(x@ =~= y@);
        encode_utf8_decode_utf8(a@);
        encode_utf8_decode_utf8(b@);
    }
    true
}

/// Time series of decoded signals, by signal name, with the unit and value
/// table recorded for each name.
pub struct DataStore {
    data: Vec<Series>,
    units: Vec<(String, String)>,
    value_tables: Vec<(String, Vec<(i64, String)>)>,
}

pub open spec fn pair_view<T: View>(v: Seq<(String, T)>) -> Seq<(Seq<char>, T::V)> {
    v.map_values(|e: (String, T)| (e.0@, e.1@))
}

/// Key-value list after setting `k` to `v`: the entry for `k` is replaced,
/// or added at the end.
pub open spec fn set_entry<V>(s: Seq<(Seq<char>, V)>, k: Seq<char>, v: V) -> Seq<(Seq<char>, V)> {
    if exists|i: int| 0 <= i < s.len() && s[i].0 == k {
        let i = choose|i: int| 0 <= i < s.len() && s[i].0 == k;
        s.update(i, (k, v))
    } else {
        s.push((k, v))
    }
}

pub open spec fn keys_unique<V>(s: Seq<(Seq<char>, V)>) -> bool {
    forall|i: int, j: int| 0 <= i < j < s.len() ==> s[i].0 != s[j].0
}

impl DataStore {
    /// The series, in the order of their creation.
    pub closed spec fn series(&self) -> Seq<SeriesModel> {
        series_view(self.data@)
    }

    /// Unit of each named signal.
    pub closed spec fn units(&self) -> Seq<(Seq<char>, Seq<char>)> {
        pair_view(self.units@)
    }

    /// Value table of each named signal.
    pub closed spec fn value_tables(&self) -> Seq<(Seq<char>, Seq<(i64, String)>)> {
        pair_view(self.value_tables@)
    }

    pub open spec fn wf(&self) -> bool {
        well_formed(self.series()) && keys_unique(self.units()) && keys_unique(self.value_tables())
    }

    pub fn new() -> (r: DataStore)
        ensures
            r.wf(),
            r.series() == Seq::<SeriesModel>::empty(),
            r.units() == Seq::<(Seq<char>, Seq<char>)>::empty(),
            r.value_tables() == Seq::<(Seq<char>, Seq<(i64, String)>)>::empty(),
    {
        let r = DataStore { data: Vec::new(), units: Vec::new(), value_tables: Vec::new() };
        assert(r.series() =~= Seq::<SeriesModel>::empty());
        assert(r.units() =~= Seq::<(Seq<char>, Seq<char>)>::empty());
        assert(r.value_tables() =~= Seq::<(Seq<char>, Seq<(i64, String)>)>::empty());
        r
    }

    /// Number of distinct series.
    pub fn signal_count(&self) -> (r: usize)
        ensures
            r == self.series().len(),
    {
        self.data.len()
    }

    fn position(&self, key: &str) -> (r: Option<usize>)
        requires
            self.wf(),
        ensures
            match r {
                Some(i) => i < self.series().len() && self.series()[i as int].name == key@
                    && find_series(self.series(), key@) == Some(i as int),
                None => forall|j: int| 0 <= j < self.series().len() ==> self.series()[j].name != key@,
            },
            r is None <==> find_series(self.series(), key@) is None,
    {
        let ghost ss = self.series();
        let mut i: usize = 0;
        while i < self.data.len()
            invariant
                ss == self.series(),
                well_formed(ss),
                ss.len() == self.data@.len(),
                i <= ss.len(),
                forall|j: int| 0 <= j < i ==> ss[j].name != key@,
            decreases ss.len() - i,
        {
            assert(ss[i as int].name == self.data@[i as int].name@);
            if same_text(self.data[i].name.as_str(), key) {
                assert(ss[i as int].name == key@);
                proof {
                    lemma_find_unique(ss, key@, i as int);
                }
                return Some(i);
            }
            i = i + 1;
        }
        None
    }

    /// Kind of the series named `key`, if there is one.
    pub fn kind_of(&self, key: &str) -> (r: Option<Kind>)
        requires
            self.wf(),
        ensures
            r == (match find_series(self.series(), key@) {
                Some(i) => Some(self.series()[i].kind),
                None => None::<Kind>,
            }),
    {
        match self.position(key) {
            Some(i) => {
                assert(find_series(self.series(), key@) == Some(i as int));
                assert(self.series()[i as int] == self.data@[i as int]@);
                assert(self.data@[i as int]@.kind == self.data@[i as int].kind);
                Some(self.data[i].kind)
            },
            None => None,
        }
    }

    /// Appends a point to the series named `key`, creating the series with the
    /// kind of `value` on its first point. The value must have the kind of an
    /// existing series.
    pub fn push(&mut self, key: &str, timestamp: u64, value: Value)
        requires
            old(self).wf(),
            find_series(old(self).series(), key@) matches Some(i) ==> old(self).series()[i].kind == value_kind(value@),
        ensures
            final(self).wf(),
            final(self).series() == pushed(old(self).series(), key@, PointModel { time: timestamp, value: value@ }),
            final(self).units() == old(self).units(),
            final(self).value_tables() == old(self).value_tables(),
    {
        let ghost p = PointModel { time: timestamp, value: value@ };
        let ghost old_ss = self.series();
        match self.position(key) {
            Some(i) => {
                self.data[i].points.push(DataPoint { timestamp, value });
                assert(self.data@[i as int].points@ =~= old(self).data@[i as int].points@.push(DataPoint { timestamp, value }));
                assert(points_view(self.data@[i as int].points@) =~= old_ss[i as int].points.push(p));
                assert(self.series() =~= pushed(old_ss, key@, p));
                proof {
                    let ss = self.series();
                    assert forall|a: int, b: int| 0 <= a < b < ss.len() implies ss[a].name != ss[b].name by {
                        assert(ss[a].name == old_ss[a].name && ss[b].name == old_ss[b].name);
                    }
                    assert forall|a: int, k: int| 0 <= a < ss.len() && 0 <= k < ss[a].points.len()
                        implies value_kind(#[trigger] ss[a].points[k].value) == ss[a].kind by {
                        if a != i {
                            assert(ss[a] == old_ss[a]);
                        } else if k < old_ss[a].points.len() {
                            assert(ss[a].points[k] == old_ss[a].points[k]);
                        }
                    }
                }
            },
            None => {
                let kind = match &value {
                    Value::I64(_) => Kind::I64,
                    Value::U64(_) => Kind::U64,
                    Value::F64(_) => Kind::F64,
                    Value::Str(_) => Kind::Str,
                };
                let mut points: Vec<DataPoint<Value>> = Vec::new();
                points.push(DataPoint { timestamp, value });
                assert(points_view(points@) =~= seq![p]);
                let series = Series { name: key.to_owned(), kind, points };
                assert(series@ == SeriesModel { name: key@, kind: value_kind(p.value), points: seq![p] });
                assert(find_series(old_ss, key@) is None);
                self.data.push(series);
                assert(self.series() =~= old_ss.push(series@));
                assert(self.series() =~= pushed(old_ss, key@, p));
                proof {
                    let ss = self.series();
                    assert forall|a: int, b: int| 0 <= a < b < ss.len() implies ss[a].name != ss[b].name by {
                        if b < old_ss.len() {
                            assert(ss[a] == old_ss[a] && ss[b] == old_ss[b]);
                        } else {
                            assert(ss[a] == old_ss[a]);
                        }
                    }
                    assert forall|a: int, k: int| 0 <= a < ss.len() && 0 <= k < ss[a].points.len()
                        implies value_kind(#[trigger] ss[a].points[k].value) == ss[a].kind by {
                        if a < old_ss.len() {
                            assert(ss[a] == old_ss[a]);
                        }
                    }
                }
            },
        }
        assert(self.units() == old(self).units());
        assert(self.value_tables() == old(self).value_tables());
    }

    pub fn push_int(&mut self, key: &str, timestamp: u64, value: i64)
        requires
            old(self).wf(),
            find_series(old(self).series(), key@) matches Some(i) ==> old(self).series()[i].kind == Kind::I64,
        ensures
            final(self).wf(),
            final(self).series() == pushed(old(self).series(), key@, PointModel { time: timestamp, value: ValueModel::I64(value) }),
            final(self).units() == old(self).units(),
            final(self).value_tables() == old(self).value_tables(),
    {
        self.push(key, timestamp, Value::I64(value));
    }

    pub fn push_uint(&mut self, key: &str, timestamp: u64, value: u64)
        requires
            old(self).wf(),
            find_series(old(self).series(), key@) matches Some(i) ==> old(self).series()[i].kind == Kind::U64,
        ensures
            final(self).wf(),
            final(self).series() == pushed(old(self).series(), key@, PointModel { time: timestamp, value: ValueModel::U64(value) }),
            final(self).units() == old(self).units(),
            final(self).value_tables() == old(self).value_tables(),
    {
        self.push(key, timestamp, Value::U64(value));
    }

    /// Appends a binary64 number, given by its encoding.
    pub fn push_float(&mut self, key: &str, timestamp: u64, value: u64)
        requires
            old(self).wf(),
            find_series(old(self).series(), key@) matches Some(i) ==> old(self).series()[i].kind == Kind::F64,
        ensures
            final(self).wf(),
            final(self).series() == pushed(old(self).series(), key@, PointModel { time: timestamp, value: ValueModel::F64(value) }),
            final(self).units() == old(self).units(),
            final(self).value_tables() == old(self).value_tables(),
    {
        self.push(key, timestamp, Value::F64(value));
    }

    pub fn push_string(&mut self, key: &str, timestamp: u64, value: String)
        requires
            old(self).wf(),
            find_series(old(self).series(), key@) matches Some(i) ==> old(self).series()[i].kind == Kind::Str,
        ensures
            final(self).wf(),
            final(self).series() == pushed(old(self).series(), key@, PointModel { time: timestamp, value: ValueModel::Str(value@) }),
            final(self).units() == old(self).units(),
            final(self).value_tables() == old(self).value_tables(),
    {
        self.push(key, timestamp, Value::Str(value));
    }
}

proof fn lemma_set_entry_unique<V>(s: Seq<(Seq<char>, V)>, k: Seq<char>, v: V, i: int)
    requires
        keys_unique(s),
        0 <= i < s.len(),
        s[i].0 == k,
    ensures
        set_entry(s, k, v) == s.update(i, (k, v)),
        keys_unique(set_entry(s, k, v)),
{
    let c = choose|j: int| 0 <= j < s.len() && s[j].0 == k;
    if c != i {
        if c < i {
            assert(s[c].0 != s[i].0);
        } else {
            assert(s[i].0 != s[c].0);
        }
    }
    let r = s.update(i, (k, v));
    assert forall|a: int, b: int| 0 <= a < b < r.len() implies r[a].0 != r[b].0 by {
        if a != i && b != i {
            assert(r[a] == s[a] && r[b] == s[b]);
        } else if a == i {
            assert(r[b] == s[b]);
        } else {
            assert(r[a] == s[a]);
        }
    }
}

fn entry_position<T>(v: &Vec<(String, T)>, key: &str) -> (r: Option<usize>)
    ensures
        match r {
            Some(i) => i < v@.len() && v@[i as int].0@ == key@,
            None => forall|j: int| 0 <= j < v@.len() ==> v@[j].0@ != key@,
        },
{
    let mut i: usize = 0;
    while i < v.len()
        invariant
            i <= v@.len(),
            forall|j: int| 0 <= j < i ==> v@[j].0@ != key@,
        decreases v@.len() - i,
    {
        if same_text(v[i].0.as_str(), key) {
            return Some(i);
        }
        i = i + 1;
    }
    None
}

impl DataStore {
    /// Records the unit of signal `key`, replacing any earlier one.
    pub fn set_unit(&mut self, key: &str, unit: &str)
        requires
            old(self).wf(),
        ensures
            final(self).wf(),
            final(self).units() == set_entry(old(self).units(), key@, unit@),
            final(self).series() == old(self).series(),
            final(self).value_tables() == old(self).value_tables(),
    {
        let ghost old_u = self.units();
        match entry_position(&self.units, key) {
            Some(i) => {
                self.units.set(i, (key.to_owned(), unit.to_owned()));
                proof {
                    lemma_set_entry_unique(old_u, key@, unit@, i as int);
                }
                assert(self.units() =~= old_u.update(i as int, (key@, unit@)));
            },
            None => {
                self.units.push((key.to_owned(), unit.to_owned()));
                assert(self.units() =~= old_u.push((key@, unit@)));
                assert(!(exists|j: int| 0 <= j < old_u.len() && old_u[j].0 == key@));
            },
        }
    }

    /// Records the value table of signal `key`, replacing any earlier one.
    pub fn set_value_table(&mut self, key: &str, table: Vec<(i64, String)>)
        requires
            old(self).wf(),
        ensures
            final(self).wf(),
            final(self).value_tables() == set_entry(old(self).value_tables(), key@, table@),
            final(self).series() == old(self).series(),
            final(self).units() == old(self).units(),
    {
        let ghost old_t = self.value_tables();
        let ghost tv = table@;
        match entry_position(&self.value_tables, key) {
            Some(i) => {
                self.value_tables.set(i, (key.to_owned(), table));
                proof {
                    lemma_set_entry_unique(old_t, key@, tv, i as int);
                }
                assert(self.value_tables() =~= old_t.update(i as int, (key@, tv)));
            },
            None => {
                self.value_tables.push((key.to_owned(), table));
                assert(self.value_tables() =~= old_t.push((key@, tv)));
                assert(!(exists|j: int| 0 <= j < old_t.len() && old_t[j].0 == key@));
            },
        }
    }

    /// Orders the points of every series by time, stably.
    pub fn sort_by_timestamp(&mut self)
        requires
            old(self).wf(),
        ensures
            final(self).wf(),
            final(self).series().len() == old(self).series().len(),
            forall|i: int| 0 <= i < final(self).series().len() ==> #[trigger] final(self).series()[i] == (SeriesModel {
                points: sorted_by_time(old(self).series()[i].points),
                ..old(self).series()[i]
            }),
            forall|i: int| 0 <= i < final(self).series().len() ==> time_sorted(#[trigger] final(self).series()[i].points),
            final(self).units() == old(self).units(),
            final(self).value_tables() == old(self).value_tables(),
    {
        let ghost old_ss = self.series();
        let mut i: usize = 0;
        while i < self.data.len()
            invariant
                self.data@.len() == old_ss.len(),
                i <= old_ss.len(),
                well_formed(old_ss),
                keys_unique(self.units()),
                keys_unique(self.value_tables()),
                self.units() == old(self).units(),
                self.value_tables() == old(self).value_tables(),
                forall|j: int| 0 <= j < i ==> #[trigger] self.series()[j] == (SeriesModel {
                    points: sorted_by_time(old_ss[j].points),
                    ..old_ss[j]
                }),
                forall|j: int| i <= j < old_ss.len() ==> #[trigger] self.series()[j] == old_ss[j],
            decreases old_ss.len() - i,
        {
            let ghost before = self.data@;
            let ghost before_ss = self.series();
            assert(before_ss[i as int] == old_ss[i as int]);
            assert(self.series()[i as int] == before[i as int]@);
            sort_points(&mut self.data[i].points);
            assert forall|j: int| 0 <= j < self.data@.len() && j != i implies #[trigger] self.data@[j] == before[j] by {}
            assert(self.data@[i as int].name == before[i as int].name);
            assert(self.data@[i as int].kind == before[i as int].kind);
            assert(points_view(self.data@[i as int].points@) == sorted_by_time(points_view(before[i as int].points@)));
            assert forall|j: int| 0 <= j < self.data@.len() implies #[trigger] self.series()[j] == self.data@[j]@ by {}
            assert forall|j: int| 0 <= j < before.len() implies #[trigger] series_view(before)[j] == before[j]@ by {}
            assert forall|j: int| 0 <= j < before.len() && j != i implies #[trigger] self.series()[j] == before_ss[j] by {
                assert(self.series()[j] == self.data@[j]@);
                assert(before_ss[j] == before[j]@);
            }
            assert(self.series()[i as int] == (SeriesModel { points: sorted_by_time(old_ss[i as int].points), ..old_ss[i as int] }));
            i = i + 1;
        }
        proof {
            let ss = self.series();
            assert forall|a: int| 0 <= a < ss.len() implies time_sorted(#[trigger] ss[a].points) by {
                lemma_sorted_by_time(old_ss[a].points);
            }
            assert forall|a: int, k: int| 0 <= a < ss.len() && 0 <= k < ss[a].points.len()
                implies value_kind(#[trigger] ss[a].points[k].value) == ss[a].kind by {
                lemma_sorted_by_time(old_ss[a].points);
                assert(ss[a].points.contains(ss[a].points[k]));
                let m = choose|m: int| 0 <= m < old_ss[a].points.len() && old_ss[a].points[m] == ss[a].points[k];
                assert(value_kind(old_ss[a].points[m].value) == old_ss[a].kind);
            }
            assert forall|a: int, b: int| 0 <= a < b < ss.len() implies ss[a].name != ss[b].name by {
                assert(ss[a].name == old_ss[a].name && ss[b].name == old_ss[b].name);
            }
        }
    }
}

/// `256^n`.
pub open spec fn byte_cap(n: nat) -> nat
    decreases n,
{
    if n == 0 {
        1
    } else {
        256 * byte_cap((n - 1) as nat)
    }
}

/// The `n` low-order bytes of `v`, least significant first.
pub open spec fn le_bytes(v: nat, n: nat) -> Seq<u8>
    decreases n,
{
    if n == 0 {
        Seq::empty()
    } else {
        seq![(v % 256) as u8] + le_bytes(v / 256, (n - 1) as nat)
    }
}

/// "BLF2MDF" and format version 1.
pub open spec fn stream_magic() -> Seq<u8> {
    seq![0x42u8, 0x4cu8, 0x46u8, 0x32u8, 0x4du8, 0x44u8, 0x46u8, 0x01u8]
}

/// Bytes of a value in the stream: eight little-endian bytes for numbers (the
/// two's-complement form for `I64`, the binary64 encoding for `F64`); for text,
/// a 16-bit length and the UTF-8 bytes.
pub open spec fn value_bytes(v: ValueModel) -> Seq<u8> {
    match v {
        ValueModel::I64(x) => le_bytes((x as u64) as nat, 8),
        ValueModel::U64(x) => le_bytes(x as nat, 8),
        ValueModel::F64(x) => le_bytes(x as nat, 8),
        ValueModel::Str(t) => le_bytes(encode_utf8(t).len(), 2) + encode_utf8(t),
    }
}

pub open spec fn point_bytes(p: PointModel) -> Seq<u8> {
    le_bytes(p.time as nat, 8) + value_bytes(p.value)
}

pub open spec fn points_bytes(ps: Seq<PointModel>) -> Seq<u8>
    decreases ps.len(),
{
    if ps.len() == 0 {
        Seq::empty()
    } else {
        point_bytes(ps[0]) + points_bytes(ps.drop_first())
    }
}

/// A series in the stream: 16-bit name length, UTF-8 name, kind tag, 32-bit
/// point count, then the points.
pub open spec fn series_bytes(s: SeriesModel) -> Seq<u8> {
    le_bytes(encode_utf8(s.name).len(), 2) + encode_utf8(s.name) + seq![kind_tag(s.kind)] + le_bytes(s.points.len(), 4)
        + points_bytes(s.points)
}

pub open spec fn all_series_bytes(ss: Seq<SeriesModel>) -> Seq<u8>
    decreases ss.len(),
{
    if ss.len() == 0 {
        Seq::empty()
    } else {
        series_bytes(ss[0]) + all_series_bytes(ss.drop_first())
    }
}

/// The stream: magic, 32-bit series count, then the series.
pub open spec fn stream_bytes(ss: Seq<SeriesModel>) -> Seq<u8> {
    stream_magic() + le_bytes(ss.len(), 4) + all_series_bytes(ss)
}

pub open spec fn value_fits(v: ValueModel) -> bool {
    v matches ValueModel::Str(t) ==> encode_utf8(t).len() < 0x1_0000
}

pub open spec fn series_fits(s: SeriesModel) -> bool {
    &&& encode_utf8(s.name).len() < 0x1_0000
    &&& s.points.len() < 0x1_0000_0000
    &&& forall|k: int| 0 <= k < s.points.len() ==> value_fits(#[trigger] s.points[k].value)
}

/// Every length fits its field in the stream.
pub open spec fn encodable(ss: Seq<SeriesModel>) -> bool {
    ss.len() < 0x1_0000_0000 && forall|i: int| 0 <= i < ss.len() ==> series_fits(#[trigger] ss[i])
}

proof fn lemma_le_bytes_step(v: nat, i: nat)
    ensures
        le_bytes(v, i + 1) == le_bytes(v, i) + seq![((v / byte_cap(i)) % 256) as u8],
        byte_cap(i) > 0,
        byte_cap(i + 1) == byte_cap(i) * 256,
    decreases i,
{
    if i == 0 {
        assert(le_bytes(v, 1) =~= seq![(v % 256) as u8] + le_bytes(v / 256, 0));
        assert(le_bytes(v, 0) + seq![((v / 1) % 256) as u8] =~= seq![(v % 256) as u8]);
    } else {
        lemma_le_bytes_step(v / 256, (i - 1) as nat);
        lemma_div_denominator(v as int, 256, byte_cap((i - 1) as nat) as int);
        assert(le_bytes(v, i + 1) =~= seq![(v % 256) as u8] + le_bytes(v / 256, i));
        assert(le_bytes(v, i) =~= seq![(v % 256) as u8] + le_bytes(v / 256, (i - 1) as nat));
        assert(le_bytes(v, i + 1) =~= le_bytes(v, i) + seq![((v / byte_cap(i)) % 256) as u8]);
    }
}

fn put_le(out: &mut Vec<u8>, v: u64, n: usize)
    requires
        n <= 8,
    ensures
        final(out)@ == old(out)@ + le_bytes(v as nat, n as nat),
{
    let mut cur: u64 = v;
    let mut i: usize = 0;
    assert(old(out)@ + le_bytes(v as nat, 0) =~= old(out)@);
    assert(byte_cap(0) == 1);
    while i < n
        invariant
            i <= n,
            out@ == old(out)@ + le_bytes(v as nat, i as nat),
            cur as nat == v as nat / byte_cap(i as nat),
        decreases n - i,
    {
        proof {
            lemma_le_bytes_step(v as nat, i as nat);
            lemma_div_denominator(v as int, byte_cap(i as nat) as int, 256);
        }
        out.push((cur % 256) as u8);
        cur = cur / 256;
        i = i + 1;
        assert(out@ =~= old(out)@ + le_bytes(v as nat, i as nat));
    }
}

fn put_bytes(out: &mut Vec<u8>, b: &[u8])
    ensures
        final(out)@ == old(out)@ + b@,
{
    let mut i: usize = 0;
    while i < b.len()
        invariant
            i <= b@.len(),
            out@ == old(out)@ + b@.subrange(0, i as int),
        decreases b@.len() - i,
    {
        out.push(b[i]);
        i = i + 1;
        assert(out@ =~= old(out)@ + b@.subrange(0, i as int));
    }
    assert(b@.subrange(0, b@.len() as int) =~= b@);
}

fn put_value(out: &mut Vec<u8>, v: &Value) -> (r: bool)
    ensures
        r == value_fits(v@),
        r ==> final(out)@ == old(out)@ + value_bytes(v@),
{
    match v {
        Value::I64(x) => {
            put_le(out, *x as u64, 8);
            true
        },
        Value::U64(x) => {
            put_le(out, *x, 8);
            true
        },
        Value::F64(x) => {
            put_le(out, *x, 8);
            true
        },
        Value::Str(t) => {
            let b = t.as_str().as_bytes();
            if b.len() >= 0x1_0000 {
                return false;
            }
            put_le(out, b.len() as u64, 2);
            put_bytes(out, b);
            assert(out@ =~= old(out)@ + value_bytes(v@));
            true
        },
    }
}

proof fn lemma_points_bytes_append(a: Seq<PointModel>, b: Seq<PointModel>)
    ensures
        points_bytes(a + b) == points_bytes(a) + points_bytes(b),
    decreases a.len(),
{
    if a.len() == 0 {
        assert(a + b =~= b);
        assert(points_bytes(a) + points_bytes(b) =~= points_bytes(b));
    } else {
        assert((a + b).drop_first() =~= a.drop_first() + b);
        lemma_points_bytes_append(a.drop_first(), b);
        assert(points_bytes(a + b) =~= points_bytes(a) + points_bytes(b));
    }
}

proof fn lemma_all_series_bytes_append(a: Seq<SeriesModel>, b: Seq<SeriesModel>)
    ensures
        all_series_bytes(a + b) == all_series_bytes(a) + all_series_bytes(b),
    decreases a.len(),
{
    if a.len() == 0 {
        assert(a + b =~= b);
        assert(all_series_bytes(a) + all_series_bytes(b) =~= all_series_bytes(b));
    } else {
        assert((a + b).drop_first() =~= a.drop_first() + b);
        lemma_all_series_bytes_append(a.drop_first(), b);
        assert(all_series_bytes(a + b) =~= all_series_bytes(a) + all_series_bytes(b));
    }
}

fn put_series(out: &mut Vec<u8>, s: &Series) -> (r: bool)
    ensures
        r == series_fits(s@),
        r ==> final(out)@ == old(out)@ + series_bytes(s@),
{
    let name = s.name.as_str().as_bytes();
    if name.len() >= 0x1_0000 || s.points.len() as u64 >= 0x1_0000_0000 {
        return false;
    }
    put_le(out, name.len() as u64, 2);
    put_bytes(out, name);
    let tag: u8 = match s.kind {
        Kind::I64 => 1,
        Kind::U64 => 2,
        Kind::F64 => 3,
        Kind::Str => 4,
    };
    out.push(tag);
    put_le(out, s.points.len() as u64, 4);
    let ghost head = out@;
    let ghost ps = s@.points;
    let mut k: usize = 0;
    assert(ps.subrange(0, 0) =~= Seq::<PointModel>::empty());
    assert(head + points_bytes(ps.subrange(0, 0)) =~= head);
    while k < s.points.len()
        invariant
            ps == points_view(s.points@),
            k <= ps.len(),
            out@ == head + points_bytes(ps.subrange(0, k as int)),
            forall|j: int| 0 <= j < k ==> value_fits(#[trigger] ps[j].value),
        decreases ps.len() - k,
    {
        put_le(out, s.points[k].timestamp, 8);
        if !put_value(out, &s.points[k].value) {
            assert(!value_fits(ps[k as int].value));
            return false;
        }
        proof {
            lemma_points_bytes_append(ps.subrange(0, k as int), seq![ps[k as int]]);
            assert(ps.subrange(0, k + 1) =~= ps.subrange(0, k as int) + seq![ps[k as int]]);
            assert(seq![ps[k as int]].drop_first() =~= Seq::<PointModel>::empty());
            assert(points_bytes(Seq::<PointModel>::empty()) =~= Seq::<u8>::empty());
            assert(seq![ps[k as int]][0] == ps[k as int]);
            assert(point_bytes(ps[k as int]) + Seq::<u8>::empty() =~= point_bytes(ps[k as int]));
            assert(points_bytes(seq![ps[k as int]]) =~= point_bytes(ps[k as int]));
        }
        k = k + 1;
        assert(out@ =~= head + points_bytes(ps.subrange(0, k as int)));
    }
    assert(ps.subrange(0, ps.len() as int) =~= ps);
    assert(out@ =~= old(out)@ + series_bytes(s@));
    true
}

fn put_all_series(out: &mut Vec<u8>, data: &Vec<Series>) -> (r: bool)
    ensures
        r == (forall|j: int| 0 <= j < data@.len() ==> series_fits(#[trigger] series_view(data@)[j])),
        r ==> final(out)@ == old(out)@ + all_series_bytes(series_view(data@)),
{
    let ghost ss = series_view(data@);
    let ghost head = out@;
    let mut i: usize = 0;
    assert(ss.subrange(0, 0) =~= Seq::<SeriesModel>::empty());
    assert(head + all_series_bytes(ss.subrange(0, 0)) =~= head);
    while i < data.len()
        invariant
            ss == series_view(data@),
            ss.len() == data@.len(),
            i <= ss.len(),
            out@ == head + all_series_bytes(ss.subrange(0, i as int)),
            forall|j: int| 0 <= j < i ==> series_fits(#[trigger] ss[j]),
        decreases ss.len() - i,
    {
        assert(ss[i as int] == data@[i as int]@);
        if !put_series(out, &data[i]) {
            return false;
        }
        proof {
            lemma_all_series_bytes_append(ss.subrange(0, i as int), seq![ss[i as int]]);
            assert(ss.subrange(0, i + 1) =~= ss.subrange(0, i as int) + seq![ss[i as int]]);
            assert(seq![ss[i as int]].drop_first() =~= Seq::<SeriesModel>::empty());
            assert(all_series_bytes(Seq::<SeriesModel>::empty()) =~= Seq::<u8>::empty());
            assert(seq![ss[i as int]][0] == ss[i as int]);
            assert(series_bytes(ss[i as int]) + Seq::<u8>::empty() =~= series_bytes(ss[i as int]));
            assert(all_series_bytes(seq![ss[i as int]]) =~= series_bytes(ss[i as int]));
        }
        i = i + 1;
        assert(out@ =~= head + all_series_bytes(ss.subrange(0, i as int)));
    }
    assert(ss.subrange(0, ss.len() as int) =~= ss);
    true
}

/// Errors of stream encoding.
#[derive(Debug, Clone, Copy, PartialEq, Eq, Structural)]
pub enum StreamError {
    /// A name, text value or count does not fit its field.
    TooLong,
}

impl DataStore {
    /// Orders every series by time, then encodes the store as a stream (see
    /// [`stream_bytes`]); fails when a length does not fit its field.
    pub fn write_to_stream(&mut self) -> (r: Result<Vec<u8>, StreamError>)
        requires
            old(self).wf(),
        ensures
            final(self).wf(),
            final(self).series().len() == old(self).series().len(),
            forall|i: int| 0 <= i < final(self).series().len() ==> #[trigger] final(self).series()[i] == (SeriesModel {
                points: sorted_by_time(old(self).series()[i].points),
                ..old(self).series()[i]
            }),
            forall|i: int| 0 <= i < final(self).series().len() ==> time_sorted(#[trigger] final(self).series()[i].points),
            final(self).units() == old(self).units(),
            final(self).value_tables() == old(self).value_tables(),
            match r {
                Ok(b) => encodable(final(self).series()) && b@ == stream_bytes(final(self).series()),
                Err(_) => !encodable(final(self).series()),
            },
    {
        self.sort_by_timestamp();
        let ghost ss = self.series();
        let mut out: Vec<u8> = Vec::new();
        if self.data.len() as u64 >= 0x1_0000_0000 {
            return Err(StreamError::TooLong);
        }
        out.push(0x42);
        out.push(0x4c);
        out.push(0x46);
        out.push(0x32);
        out.push(0x4d);
        out.push(0x44);
        out.push(0x46);
        out.push(0x01);
        put_le(&mut out, self.data.len() as u64, 4);
        assert(out@ =~= stream_magic() + le_bytes(ss.len(), 4));
        if !put_all_series(&mut out, &self.data) {
            return Err(StreamError::TooLong);
        }
        Ok(out)
    }
}

/// Value of the first `n` bytes of `b`, least significant first.
pub open spec fn le_value(b: Seq<u8>, n: nat) -> int
    decreases n,
{
    if n == 0 {
        0
    } else {
        b[0] + 256 * le_value(b.drop_first(), (n - 1) as nat)
    }
}

pub open spec fn kind_of_tag(t: u8) -> Option<Kind> {
    if t == 1 {
        Some(Kind::I64)
    } else if t == 2 {
        Some(Kind::U64)
    } else if t == 3 {
        Some(Kind::F64)
    } else if t == 4 {
        Some(Kind::Str)
    } else {
        None
    }
}

/// A value of kind `kind` read from the front of `b`, and the bytes after it.
pub open spec fn read_value(kind: Kind, b: Seq<u8>) -> Option<(ValueModel, Seq<u8>)> {
    if kind == Kind::Str {
        if b.len() < 2 || b.len() < 2 + le_value(b, 2) {
            None
        } else {
            let n = le_value(b, 2);
            Some((ValueModel::Str(decode_utf8(b.subrange(2, 2 + n))), b.subrange(2 + n, b.len() as int)))
        }
    } else if b.len() < 8 {
        None
    } else {
        let x = le_value(b, 8);
        let v = if kind == Kind::I64 {
            ValueModel::I64(x as i64)
        } else if kind == Kind::U64 {
            ValueModel::U64(x as u64)
        } else {
            ValueModel::F64(x as u64)
        };
        Some((v, b.subrange(8, b.len() as int)))
    }
}

/// `n` points of kind `kind` read from the front of `b`, and the bytes after them.
pub open spec fn read_points(kind: Kind, n: nat, b: Seq<u8>) -> Option<(Seq<PointModel>, Seq<u8>)>
    decreases n,
{
    if n == 0 {
        Some((Seq::empty(), b))
    } else if b.len() < 8 {
        None
    } else {
        match read_value(kind, b.subrange(8, b.len() as int)) {
            None => None,
            Some((v, rest)) => match read_points(kind, (n - 1) as nat, rest) {
                None => None,
                Some((ps, tail)) => Some((seq![PointModel { time: le_value(b, 8) as u64, value: v }] + ps, tail)),
            },
        }
    }
}

/// A series read from the front of `b`, and the bytes after it.
pub open spec fn read_series(b: Seq<u8>) -> Option<(SeriesModel, Seq<u8>)> {
    if b.len() < 2 || b.len() < le_value(b, 2) + 7 {
        None
    } else {
        let n = le_value(b, 2);
        match kind_of_tag(b[2 + n]) {
            None => None,
            Some(kind) => match read_points(
                kind,
                le_value(b.subrange(3 + n, b.len() as int), 4) as nat,
                b.subrange(7 + n, b.len() as int),
            ) {
                None => None,
                Some((ps, rest)) => Some((SeriesModel { name: decode_utf8(b.subrange(2, 2 + n)), kind, points: ps }, rest)),
            },
        }
    }
}

pub open spec fn read_series_list(n: nat, b: Seq<u8>) -> Option<(Seq<SeriesModel>, Seq<u8>)>
    decreases n,
{
    if n == 0 {
        Some((Seq::empty(), b))
    } else {
        match read_series(b) {
            None => None,
            Some((s, rest)) => match read_series_list((n - 1) as nat, rest) {
                None => None,
                Some((ss, tail)) => Some((seq![s] + ss, tail)),
            },
        }
    }
}

/// The series held by a complete stream, if `b` is one.
pub open spec fn parse_stream(b: Seq<u8>) -> Option<Seq<SeriesModel>> {
    if b.len() < 12 || b.subrange(0, 8) != stream_magic() {
        None
    } else {
        match read_series_list(le_value(b.subrange(8, b.len() as int), 4) as nat, b.subrange(12, b.len() as int)) {
            Some((ss, rest)) => if rest.len() == 0 {
                Some(ss)
            } else {
                None
            },
            None => None,
        }
    }
}

proof fn lemma_le_round_trip(v: nat, n: nat, rest: Seq<u8>)
    requires
        v < byte_cap(n),
    ensures
        le_bytes(v, n).len() == n,
        le_value(le_bytes(v, n) + rest, n) == v,
        (le_bytes(v, n) + rest).subrange(n as int, (n + rest.len()) as int) == rest,
    decreases n,
{
    let b = le_bytes(v, n) + rest;
    if n == 0 {
        assert(b =~= rest);
        assert(b.subrange(0, rest.len() as int) =~= rest);
    } else {
        let m = (n - 1) as nat;
        assert(v / 256 < byte_cap(m));
        lemma_le_round_trip(v / 256, m, rest);
        assert(b.drop_first() =~= le_bytes(v / 256, m) + rest);
        assert(b[0] == (v % 256) as u8);
        assert(b.subrange(n as int, (n + rest.len()) as int) =~= (le_bytes(v / 256, m) + rest).subrange(m as int, (m + rest.len()) as int));
    }
}

proof fn lemma_caps()
    ensures
        byte_cap(2) == 0x1_0000,
        byte_cap(4) == 0x1_0000_0000,
        byte_cap(8) == 0x1_0000_0000_0000_0000,
{
    reveal_with_fuel(byte_cap, 9);
}

proof fn lemma_value_round_trip(v: ValueModel, rest: Seq<u8>)
    requires
        value_fits(v),
    ensures
        read_value(value_kind(v), value_bytes(v) + rest) == Some((v, rest)),
{
    lemma_caps();
    let b = value_bytes(v) + rest;
    match v {
        ValueModel::Str(t) => {
            let u = encode_utf8(t);
            lemma_le_round_trip(u.len(), 2, u + rest);
            assert(b =~= le_bytes(u.len(), 2) + (u + rest));
            assert(b.subrange(2, b.len() as int) =~= u + rest);
            assert(b.subrange(2, 2 + u.len() as int) =~= u);
            assert(b.subrange(2 + u.len() as int, b.len() as int) =~= rest);
            encode_utf8_decode_utf8(t);
        },
        ValueModel::I64(x) => {
            lemma_le_round_trip((x as u64) as nat, 8, rest);
            assert(b.subrange(8, b.len() as int) =~= rest);
            assert((x as u64) as i64 == x) by (bit_vector);
        },
        ValueModel::U64(x) => {
            lemma_le_round_trip(x as nat, 8, rest);
            assert(b.subrange(8, b.len() as int) =~= rest);
        },
        ValueModel::F64(x) => {
            lemma_le_round_trip(x as nat, 8, rest);
            assert(b.subrange(8, b.len() as int) =~= rest);
        },
    }
}

proof fn lemma_points_round_trip(kind: Kind, ps: Seq<PointModel>, rest: Seq<u8>)
    requires
        forall|k: int| 0 <= k < ps.len() ==> value_kind(#[trigger] ps[k].value) == kind && value_fits(ps[k].value),
    ensures
        read_points(kind, ps.len(), points_bytes(ps) + rest) == Some((ps, rest)),
    decreases ps.len(),
{
    if ps.len() == 0 {
        assert(points_bytes(ps) + rest =~= rest);
        assert(ps =~= Seq::<PointModel>::empty());
    } else {
        lemma_caps();
        let p = ps[0];
        let tail = ps.drop_first();
        let b = points_bytes(ps) + rest;
        assert(value_kind(ps[0].value) == kind && value_fits(ps[0].value));
        lemma_le_round_trip(p.time as nat, 8, value_bytes(p.value) + (points_bytes(tail) + rest));
        assert(b =~= le_bytes(p.time as nat, 8) + (value_bytes(p.value) + (points_bytes(tail) + rest)));
        assert(b.subrange(8, b.len() as int) =~= value_bytes(p.value) + (points_bytes(tail) + rest));
        lemma_value_round_trip(p.value, points_bytes(tail) + rest);
        lemma_points_round_trip(kind, tail, rest);
        assert(seq![PointModel { time: le_value(b, 8) as u64, value: p.value }] + tail =~= ps);
    }
}

proof fn lemma_series_round_trip(s: SeriesModel, rest: Seq<u8>)
    requires
        series_fits(s),
        forall|k: int| 0 <= k < s.points.len() ==> value_kind(#[trigger] s.points[k].value) == s.kind,
    ensures
        read_series(series_bytes(s) + rest) == Some((s, rest)),
{
    lemma_caps();
    let u = encode_utf8(s.name);
    let n = u.len() as int;
    let pb = points_bytes(s.points) + rest;
    let b = series_bytes(s) + rest;
    let after_name = seq![kind_tag(s.kind)] + (le_bytes(s.points.len(), 4) + pb);
    assert(b =~= le_bytes(u.len(), 2) + (u + after_name));
    lemma_le_round_trip(u.len(), 2, u + after_name);
    assert(b.subrange(2, 2 + n) =~= u);
    assert(b[2 + n] == kind_tag(s.kind));
    lemma_le_round_trip(s.points.len(), 4, pb);
    assert(b.subrange(3 + n, b.len() as int) =~= le_bytes(s.points.len(), 4) + pb);
    assert(b.subrange(7 + n, b.len() as int) =~= pb);
    assert forall|k: int| 0 <= k < s.points.len() implies value_kind(#[trigger] s.points[k].value) == s.kind
        && value_fits(s.points[k].value) by {}
    lemma_points_round_trip(s.kind, s.points, rest);
    encode_utf8_decode_utf8(s.name);
}

proof fn lemma_series_list_round_trip(ss: Seq<SeriesModel>, rest: Seq<u8>)
    requires
        well_formed(ss),
        forall|i: int| 0 <= i < ss.len() ==> series_fits(#[trigger] ss[i]),
    ensures
        read_series_list(ss.len(), all_series_bytes(ss) + rest) == Some((ss, rest)),
    decreases ss.len(),
{
    if ss.len() == 0 {
        assert(all_series_bytes(ss) + rest =~= rest);
        assert(ss =~= Seq::<SeriesModel>::empty());
    } else {
        let t = ss.drop_first();
        assert(all_series_bytes(ss) + rest =~= series_bytes(ss[0]) + (all_series_bytes(t) + rest));
        assert(series_fits(ss[0]));
        assert forall|k: int| 0 <= k < ss[0].points.len() implies value_kind(#[trigger] ss[0].points[k].value) == ss[0].kind by {}
        lemma_series_round_trip(ss[0], all_series_bytes(t) + rest);
        assert forall|i: int| 0 <= i < t.len() implies series_fits(#[trigger] t[i]) by {
            assert(t[i] == ss[i + 1]);
        }
        assert(well_formed(t)) by {
            assert forall|i: int, j: int| 0 <= i < j < t.len() implies t[i].name != t[j].name by {
                assert(t[i] == ss[i + 1] && t[j] == ss[j + 1]);
            }
            assert forall|i: int, k: int| 0 <= i < t.len() && 0 <= k < t[i].points.len()
                implies value_kind(#[trigger] t[i].points[k].value) == t[i].kind by {
                assert(t[i] == ss[i + 1]);
            }
        }
        lemma_series_list_round_trip(t, rest);
        assert(seq![ss[0]] + t =~= ss);
    }
}

/// Reading back a stream gives back the series written, with their names,
/// kinds and points in order.
pub proof fn lemma_stream_round_trip(ss: Seq<SeriesModel>)
    requires
        well_formed(ss),
        encodable(ss),
    ensures
        parse_stream(stream_bytes(ss)) == Some(ss),
{
    lemma_caps();
    let body = all_series_bytes(ss);
    let b = stream_bytes(ss);
    assert(b =~= stream_magic() + (le_bytes(ss.len(), 4) + body));
    assert(b.subrange(0, 8) =~= stream_magic());
    lemma_le_round_trip(ss.len(), 4, body);
    assert(b.subrange(8, b.len() as int) =~= le_bytes(ss.len(), 4) + body);
    assert(b.subrange(12, b.len() as int) =~= body);
    lemma_series_list_round_trip(ss, Seq::empty());
    assert(body + Seq::<u8>::empty() =~= body);
}

pub(crate) fn copy_table(t: &Vec<(i64, String)>) -> (r: Vec<(i64, String)>)
    ensures
        r@ == t@,
{
    let mut r: Vec<(i64, String)> = Vec::new();
    let mut i: usize = 0;
    while i < t.len()
        invariant
            i <= t@.len(),
            r@ == t@.subrange(0, i as int),
        decreases t@.len() - i,
    {
        r.push((t[i].0, t[i].1.clone()));
        i = i + 1;
        assert(r@ =~= t@.subrange(0, i as int));
    }
    assert(t@.subrange(0, t@.len() as int) =~= t@);
    r
}

impl DataStore {
    /// Unit recorded for signal `key`.
    pub fn unit(&self, key: &str) -> (r: Option<String>)
        ensures
            match r {
                Some(u) => exists|i: int| 0 <= i < self.units().len() && #[trigger] self.units()[i] == (key@, u@),
                None => forall|i: int| 0 <= i < self.units().len() ==> #[trigger] self.units()[i].0 != key@,
            },
    {
        match entry_position(&self.units, key) {
            Some(i) => {
                let u = self.units[i].1.clone();
                assert(self.units()[i as int] == (key@, u@));
                Some(u)
            },
            None => {
                assert forall|i: int| 0 <= i < self.units().len() implies #[trigger] self.units()[i].0 != key@ by {
                    assert(self.units()[i].0 == self.units@[i].0@);
                }
                None
            },
        }
    }

    /// Value table recorded for signal `key`.
    pub fn value_table(&self, key: &str) -> (r: Option<Vec<(i64, String)>>)
        ensures
            match r {
                Some(t) => exists|i: int| 0 <= i < self.value_tables().len() && #[trigger] self.value_tables()[i] == (key@, t@),
                None => forall|i: int| 0 <= i < self.value_tables().len() ==> #[trigger] self.value_tables()[i].0 != key@,
            },
    {
        match entry_position(&self.value_tables, key) {
            Some(i) => {
                let t = copy_table(&self.value_tables[i].1);
                assert(self.value_tables()[i as int] == (key@, t@));
                Some(t)
            },
            None => {
                assert forall|i: int| 0 <= i < self.value_tables().len() implies #[trigger] self.value_tables()[i].0 != key@ by {
                    assert(self.value_tables()[i].0 == self.value_tables@[i].0@);
                }
                None
            },
        }
    }
}

impl Default for DataStore {
    fn default() -> (r: DataStore)
        ensures
            r.wf(),
            r.series() == Seq::<SeriesModel>::empty(),
            r.units() == Seq::<(Seq<char>, Seq<char>)>::empty(),
            r.value_tables() == Seq::<(Seq<char>, Seq<(i64, String)>)>::empty(),
    {
        DataStore::new()
    }
}

} // verus!

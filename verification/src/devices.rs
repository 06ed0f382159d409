//! The devices list: wired devices found by udev and Bluetooth devices,
//! ordered by how they are attached.

use vstd::prelude::*;
use crate::std_calls::{char_is_numeric, is_numeric};
use crate::text::{
    contains, from_chars, has_substring, push_str, replace_all, replace_chars, string_views,
    to_chars,
};

verus! {

broadcast use vstd::string::group_string_axioms;

/// A Bluetooth device as the adapter reports it.
#[derive(Debug, Clone)]
pub struct BluetoothDevice {
    /// The alias of the device, when the adapter could read it.
    pub alias: Option<String>,
    /// The address of the device, written out.
    pub address: String,
    pub connected: bool,
    pub paired: bool,
}

/// A row of the devices table. The number is the position of the device in
/// the list of Bluetooth devices it was made from.
#[derive(Debug, Clone, PartialEq, Eq)]
pub enum DeviceRow {
    Wired(String),
    Connected(usize, String),
    Paired(usize, String),
    Nearby(usize, String),
}

/// A row of the devices table, as character sequences.
pub enum RowView {
    Wired(Seq<char>),
    Connected(int, Seq<char>),
    Paired(int, Seq<char>),
    Nearby(int, Seq<char>),
}

impl View for DeviceRow {
    type V = RowView;

    open spec fn view(&self) -> RowView {
        match self {
            DeviceRow::Wired(n) => RowView::Wired(n@),
            DeviceRow::Connected(i, n) => RowView::Connected(*i as int, n@),
            DeviceRow::Paired(i, n) => RowView::Paired(*i as int, n@),
            DeviceRow::Nearby(i, n) => RowView::Nearby(*i as int, n@),
        }
    }
}

/// The views of a sequence of rows.
pub open spec fn row_views(v: Seq<DeviceRow>) -> Seq<RowView> {
    v.map_values(|r: DeviceRow| r@)
}

/// Where a row goes in the table: wired first, then connected, paired and
/// nearby devices.
pub open spec fn rank(r: RowView) -> int {
    match r {
        RowView::Wired(_) => 0,
        RowView::Connected(..) => 1,
        RowView::Paired(..) => 2,
        RowView::Nearby(..) => 3,
    }
}

/// The escape with which udev writes a space in a model name.
pub open spec fn escaped_space() -> Seq<char> {
    seq!['\\', 'x', '2', '0']
}

/// A model name as udev encodes it, with its escaped spaces written out.
pub open spec fn clean_name_spec(raw: Seq<char>) -> Seq<char> {
    replace_all(raw, escaped_space(), seq![' '])
}

/// Names of the devices that are part of the machine rather than plugged in:
/// host controllers, root hubs and names made only of numerals.
pub open spec fn is_system_spec(name: Seq<char>) -> bool {
    contains(name, "Host Controller"@) || contains(name, "Root Hub"@) || (forall|i: int|
        0 <= i < name.len() ==> is_numeric(#[trigger] name[i]))
}

/// A model name as udev encodes it, cleaned.
pub fn clean_name(raw: &str) -> (r: String)
    ensures
        r@ == clean_name_spec(raw@),
{
    let s = to_chars(raw);
    let p = vec!['\\', 'x', '2', '0'];
    let sp = vec![' '];
    proof {
        assert(p@ =~= escaped_space());
        assert(sp@ =~= seq![' ']);
    }
    from_chars(&replace_chars(&s, &p, &sp))
}

/// Whether a device name stands for a part of the machine.
pub fn is_system_device(name: &str) -> (b: bool)
    ensures
        b == is_system_spec(name@),
{
    let s = to_chars(name);
    if has_substring(&s, "Host Controller") || has_substring(&s, "Root Hub") {
        return true;
    }
    let mut i: usize = 0;
    while i < s.len()
        invariant
            i <= s.len(),
            s@ == name@,
            !contains(name@, "Host Controller"@),
            !contains(name@, "Root Hub"@),
            forall|k: int| 0 <= k < i ==> is_numeric(#[trigger] s@[k]),
        decreases s.len() - i,
    {
        if !char_is_numeric(s[i]) {
            proof { assert(!is_numeric(s@[i as int])); }
            return false;
        }
        i += 1;
    }
    true
}

/// The rows of the wired devices, from the model names udev gave, in order.
pub open spec fn wired_rows(raws: Seq<Seq<char>>) -> Seq<RowView>
    decreases raws.len(),
{
    if raws.len() == 0 {
        seq![]
    } else {
        let prev = wired_rows(raws.drop_last());
        let name = clean_name_spec(raws.last());
        if !is_system_spec(name) && name.len() > 0 {
            prev.push(RowView::Wired(name))
        } else {
            prev
        }
    }
}

/// The name shown for a Bluetooth device: its alias, else its address.
pub open spec fn device_name(alias: Option<Seq<char>>, address: Seq<char>) -> Seq<char> {
    match alias {
        Some(a) => a,
        None => address,
    }
}

/// The row of the Bluetooth device at position `i`.
pub open spec fn bluetooth_row(i: int, d: BluetoothDevice) -> RowView {
    let name = device_name(crate::text::opt_view(d.alias), d.address@);
    if d.connected {
        RowView::Connected(i, name)
    } else if d.paired {
        RowView::Paired(i, name)
    } else {
        RowView::Nearby(i, name)
    }
}

/// The rows of the Bluetooth devices, in order.
pub open spec fn bluetooth_rows(ds: Seq<BluetoothDevice>) -> Seq<RowView> {
    Seq::new(ds.len(), |i: int| bluetooth_row(i, ds[i]))
}

/// The rows of `rows` whose rank is `k`, in order.
pub open spec fn with_rank(rows: Seq<RowView>, k: int) -> Seq<RowView>
    decreases rows.len(),
{
    if rows.len() == 0 {
        seq![]
    } else {
        let prev = with_rank(rows.drop_last(), k);
        if rank(rows.last()) == k {
            prev.push(rows.last())
        } else {
            prev
        }
    }
}

/// `rows` sorted by rank, rows of the same rank keeping their order (the
/// stable sort that `sort_by_key` does).
pub open spec fn by_rank(rows: Seq<RowView>) -> Seq<RowView> {
    with_rank(rows, 0) + with_rank(rows, 1) + with_rank(rows, 2) + with_rank(rows, 3)
}

/// The devices table: the wired rows, then the Bluetooth rows, sorted by rank.
pub open spec fn device_table(raws: Seq<Seq<char>>, ds: Seq<BluetoothDevice>) -> Seq<RowView> {
    by_rank(wired_rows(raws) + bluetooth_rows(ds))
}

fn clone_row(r: &DeviceRow) -> (c: DeviceRow)
    ensures
        c@ == r@,
{
    match r {
        DeviceRow::Wired(n) => DeviceRow::Wired(n.clone()),
        DeviceRow::Connected(i, n) => DeviceRow::Connected(*i, n.clone()),
        DeviceRow::Paired(i, n) => DeviceRow::Paired(*i, n.clone()),
        DeviceRow::Nearby(i, n) => DeviceRow::Nearby(*i, n.clone()),
    }
}

fn rank_of(r: &DeviceRow) -> (k: u8)
    ensures
        k as int == rank(r@),
{
    match r {
        DeviceRow::Wired(_) => 0,
        DeviceRow::Connected(..) => 1,
        DeviceRow::Paired(..) => 2,
        DeviceRow::Nearby(..) => 3,
    }
}

/// Appends the rows of rank `k` of `rows` to `out`.
fn push_rank(out: &mut Vec<DeviceRow>, rows: &Vec<DeviceRow>, k: u8)
    ensures
        row_views(final(out)@) == row_views(old(out)@) + with_rank(row_views(rows@), k as int),
{
    let ghost start = row_views(out@);
    let mut i: usize = 0;
    proof {
        assert(row_views(rows@).take(0) =~= Seq::<RowView>::empty());
        assert(start + Seq::<RowView>::empty() =~= start);
    }
    while i < rows.len()
        invariant
            i <= rows.len(),
            row_views(out@) == start + with_rank(row_views(rows@).take(i as int), k as int),
        decreases rows.len() - i,
    {
        let ghost taken = row_views(rows@).take(i + 1);
        let ghost before_out = row_views(out@);
        proof {
            assert(taken.drop_last() =~= row_views(rows@).take(i as int));
            assert(taken.last() == rows@[i as int]@);
        }
        if rank_of(&rows[i]) == k {
            let c = clone_row(&rows[i]);
            out.push(c);
            proof { assert(row_views(out@) =~= before_out.push(rows@[i as int]@)); }
        }
        i += 1;
    }
    proof { assert(row_views(rows@).take(rows.len() as int) =~= row_views(rows@)); }
}

/// The devices table for the model names udev gave and the Bluetooth devices
/// the adapter knows.
pub fn device_list(raws: &Vec<String>, devices: &Vec<BluetoothDevice>) -> (r: Vec<DeviceRow>)
    ensures
        row_views(r@) == device_table(string_views(raws@), devices@),
{
    let mut rows: Vec<DeviceRow> = Vec::new();
    let mut i: usize = 0;
    proof { assert(string_views(raws@).take(0) =~= Seq::<Seq<char>>::empty()); }
    while i < raws.len()
        invariant
            i <= raws.len(),
            row_views(rows@) == wired_rows(string_views(raws@).take(i as int)),
        decreases raws.len() - i,
    {
        let ghost taken = string_views(raws@).take(i + 1);
        let ghost before_rows = row_views(rows@);
        proof {
            assert(taken.drop_last() =~= string_views(raws@).take(i as int));
            assert(taken.last() == raws@[i as int]@);
        }
        let name = clean_name(raws[i].as_str());
        if !is_system_device(name.as_str()) && !name.as_str().is_empty() {
            let ghost nv = name@;
            rows.push(DeviceRow::Wired(name));
            proof { assert(row_views(rows@) =~= before_rows.push(RowView::Wired(nv))); }
        }
        i += 1;
    }
    proof { assert(string_views(raws@).take(raws.len() as int) =~= string_views(raws@)); }
    let ghost wired = row_views(rows@);
    let mut j: usize = 0;
    while j < devices.len()
        invariant
            j <= devices.len(),
            row_views(rows@) == wired + bluetooth_rows(devices@).take(j as int),
            wired == wired_rows(string_views(raws@)),
        decreases devices.len() - j,
    {
        let d = &devices[j];
        let name = match &d.alias {
            Some(a) => a.clone(),
            None => d.address.clone(),
        };
        let row = if d.connected {
            DeviceRow::Connected(j, name)
        } else if d.paired {
            DeviceRow::Paired(j, name)
        } else {
            DeviceRow::Nearby(j, name)
        };
        proof { assert(row@ == bluetooth_row(j as int, devices@[j as int])); }
        let ghost before_rows = row_views(rows@);
        let ghost rv = row@;
        rows.push(row);
        j += 1;
        proof {
            assert(row_views(rows@) =~= before_rows.push(rv));
            assert(bluetooth_rows(devices@).take(j as int) =~= bluetooth_rows(devices@).take(j - 1).push(rv));
            assert(row_views(rows@) =~= wired + bluetooth_rows(devices@).take(j as int));
        }
    }
    proof { assert(bluetooth_rows(devices@).take(devices.len() as int) =~= bluetooth_rows(devices@)); }
    let mut out: Vec<DeviceRow> = Vec::new();
    proof { assert(row_views(out@) =~= Seq::<RowView>::empty()); }
    push_rank(&mut out, &rows, 0);
    push_rank(&mut out, &rows, 1);
    push_rank(&mut out, &rows, 2);
    push_rank(&mut out, &rows, 3);
    proof {
        let all = row_views(rows@);
        assert(row_views(out@) =~= by_rank(all));
    }
    out
}

/// The question asked before removing a paired device.
pub fn removal_prompt(name: &str) -> (r: String)
    ensures
        r@ == "Remove this device: "@ + name@ + "?"@,
{
    let mut v = to_chars("Remove this device: ");
    push_str(&mut v, name);
    push_str(&mut v, "?");
    from_chars(&v)
}

/// The question asked before pairing a nearby device.
pub fn pairing_prompt(name: &str) -> (r: String)
    ensures
        r@ == "Pair this device: "@ + name@ + "?"@,
{
    let mut v = to_chars("Pair this device: ");
    push_str(&mut v, name);
    push_str(&mut v, "?");
    from_chars(&v)
}

/// The names in order of first appearance, each once.
pub open spec fn first_occurrences(names: Seq<Seq<char>>) -> Seq<Seq<char>>
    decreases names.len(),
{
    if names.len() == 0 {
        seq![]
    } else {
        let prev = first_occurrences(names.drop_last());
        if prev.contains(names.last()) {
            prev
        } else {
            prev.push(names.last())
        }
    }
}

/// The model names of the wired devices, each kept once, in the order udev
/// listed them.
pub fn unique_names(names: &Vec<String>) -> (r: Vec<String>)
    ensures
        string_views(r@) == first_occurrences(string_views(names@)),
{
    let mut r: Vec<String> = Vec::new();
    let mut i: usize = 0;
    proof { assert(string_views(names@).take(0) =~= Seq::<Seq<char>>::empty()); }
    while i < names.len()
        invariant
            i <= names.len(),
            string_views(r@) == first_occurrences(string_views(names@).take(i as int)),
        decreases names.len() - i,
    {
        let ghost taken = string_views(names@).take(i + 1);
        let ghost before_r = string_views(r@);
        proof {
            assert(taken.drop_last() =~= string_views(names@).take(i as int));
            assert(taken.last() == names@[i as int]@);
        }
        let mut found = false;
        let mut k: usize = 0;
        while k < r.len()
            invariant
                k <= r.len(),
                i < names.len(),
                before_r == string_views(r@),
                found == (exists|m: int| 0 <= m < k && #[trigger] r@[m]@ == names@[i as int]@),
            decreases r.len() - k,
        {
            if r[k] == names[i] {
                found = true;
            }
            k += 1;
        }
        proof {
            if found {
                let m = choose|m: int| 0 <= m < k && #[trigger] r@[m]@ == names@[i as int]@;
                assert(before_r[m] == names@[i as int]@);
            } else {
                assert(!before_r.contains(names@[i as int]@)) by {
                    if before_r.contains(names@[i as int]@) {
                        let m = choose|m: int| 0 <= m < before_r.len() && before_r[m] == names@[i as int]@;
                        assert(r@[m]@ == names@[i as int]@);
                    }
                }
            }
        }
        if !found {
            let n = names[i].clone();
            r.push(n);
            proof { assert(string_views(r@) =~= before_r.push(names@[i as int]@)); }
        }
        i += 1;
    }
    proof { assert(string_views(names@).take(names.len() as int) =~= string_views(names@)); }
    r
}

proof fn lemma_with_rank_only(rows: Seq<RowView>, k: int)
    ensures
        forall|i: int| 0 <= i < with_rank(rows, k).len() ==> rank(#[trigger] with_rank(rows, k)[i]) == k,
    decreases rows.len(),
{
    if rows.len() > 0 {
        lemma_with_rank_only(rows.drop_last(), k);
        let prev = with_rank(rows.drop_last(), k);
        let w = with_rank(rows, k);
        assert forall|i: int| 0 <= i < w.len() implies rank(#[trigger] w[i]) == k by {
            if i < prev.len() {
                assert(w[i] == prev[i]);
            }
        }
    }
}

proof fn lemma_with_rank_len(rows: Seq<RowView>)
    ensures
        with_rank(rows, 0).len() + with_rank(rows, 1).len() + with_rank(rows, 2).len() + with_rank(
            rows,
            3,
        ).len() == rows.len(),
    decreases rows.len(),
{
    if rows.len() > 0 {
        lemma_with_rank_len(rows.drop_last());
    }
}

/// The devices table is ordered by rank (wired, connected, paired, nearby)
/// and holds as many rows as there are wired and Bluetooth rows.
pub proof fn law_device_table_ordered(raws: Seq<Seq<char>>, ds: Seq<BluetoothDevice>)
    ensures
        forall|i: int, j: int|
            0 <= i < j < device_table(raws, ds).len() ==> rank(#[trigger] device_table(raws, ds)[i])
                <= rank(#[trigger] device_table(raws, ds)[j]),
        device_table(raws, ds).len() == wired_rows(raws).len() + ds.len(),
{
    let rows = wired_rows(raws) + bluetooth_rows(ds);
    lemma_with_rank_only(rows, 0);
    lemma_with_rank_only(rows, 1);
    lemma_with_rank_only(rows, 2);
    lemma_with_rank_only(rows, 3);
    lemma_with_rank_len(rows);
    let a = with_rank(rows, 0);
    let b = with_rank(rows, 1);
    let c = with_rank(rows, 2);
    let d = with_rank(rows, 3);
    let t = device_table(raws, ds);
    assert forall|i: int| 0 <= i < t.len() implies rank(#[trigger] t[i]) == (if i < a.len() {
        0int
    } else if i < a.len() + b.len() {
        1int
    } else if i < a.len() + b.len() + c.len() {
        2int
    } else {
        3int
    }) by {
        if i < a.len() {
            assert(t[i] == a[i]);
        } else if i < a.len() + b.len() {
            assert(t[i] == b[i - a.len()]);
        } else if i < a.len() + b.len() + c.len() {
            assert(t[i] == c[i - a.len() - b.len()]);
        } else {
            assert(t[i] == d[i - a.len() - b.len() - c.len()]);
        }
    }
}

/// The position in the list of Bluetooth devices that a row stands for;
/// none for a wired row.
pub open spec fn row_device(r: RowView) -> Option<int> {
    match r {
        RowView::Wired(_) => None,
        RowView::Connected(i, _) => Some(i),
        RowView::Paired(i, _) => Some(i),
        RowView::Nearby(i, _) => Some(i),
    }
}

/// The name a row shows.
pub open spec fn row_name(r: RowView) -> Seq<char> {
    match r {
        RowView::Wired(n) => n,
        RowView::Connected(_, n) => n,
        RowView::Paired(_, n) => n,
        RowView::Nearby(_, n) => n,
    }
}

/// How many rows stand for the Bluetooth device at position `i`.
pub open spec fn count_device(rows: Seq<RowView>, i: int) -> nat
    decreases rows.len(),
{
    if rows.len() == 0 {
        0
    } else {
        count_device(rows.drop_last(), i) + if row_device(rows.last()) == Some(i) { 1nat } else { 0nat }
    }
}

proof fn lemma_count_concat(a: Seq<RowView>, b: Seq<RowView>, i: int)
    ensures
        count_device(a + b, i) == count_device(a, i) + count_device(b, i),
    decreases b.len(),
{
    if b.len() == 0 {
        assert(a + b =~= a);
    } else {
        lemma_count_concat(a, b.drop_last(), i);
        assert((a + b).drop_last() =~= a + b.drop_last());
        assert((a + b).last() == b.last());
    }
}

proof fn lemma_count_by_rank(rows: Seq<RowView>, i: int)
    ensures
        count_device(with_rank(rows, 0), i) + count_device(with_rank(rows, 1), i) + count_device(
            with_rank(rows, 2),
            i,
        ) + count_device(with_rank(rows, 3), i) == count_device(rows, i),
    decreases rows.len(),
{
    if rows.len() > 0 {
        lemma_count_by_rank(rows.drop_last(), i);
        let prev = rows.drop_last();
        assert forall|k: int| 0 <= k < 4 implies #[trigger] count_device(with_rank(rows, k), i) == count_device(
            with_rank(prev, k),
            i,
        ) + if rank(rows.last()) == k && row_device(rows.last()) == Some(i) {
            1nat
        } else {
            0nat
        } by {
            if rank(rows.last()) == k {
                assert(with_rank(rows, k).drop_last() =~= with_rank(prev, k));
            }
        }
        assert(count_device(with_rank(rows, 0), i) == count_device(with_rank(prev, 0), i) + if rank(
            rows.last(),
        ) == 0 && row_device(rows.last()) == Some(i) {
            1nat
        } else {
            0nat
        });
        assert(count_device(with_rank(rows, 1), i) == count_device(with_rank(prev, 1), i) + if rank(
            rows.last(),
        ) == 1 && row_device(rows.last()) == Some(i) {
            1nat
        } else {
            0nat
        });
        assert(count_device(with_rank(rows, 2), i) == count_device(with_rank(prev, 2), i) + if rank(
            rows.last(),
        ) == 2 && row_device(rows.last()) == Some(i) {
            1nat
        } else {
            0nat
        });
        assert(count_device(with_rank(rows, 3), i) == count_device(with_rank(prev, 3), i) + if rank(
            rows.last(),
        ) == 3 && row_device(rows.last()) == Some(i) {
            1nat
        } else {
            0nat
        });
    }
}

proof fn lemma_with_rank_from(rows: Seq<RowView>, k: int)
    ensures
        forall|m: int| 0 <= m < with_rank(rows, k).len() ==> rows.contains(#[trigger] with_rank(rows, k)[m]),
    decreases rows.len(),
{
    if rows.len() > 0 {
        let prev = rows.drop_last();
        lemma_with_rank_from(prev, k);
        let w = with_rank(rows, k);
        let wp = with_rank(prev, k);
        assert forall|m: int| 0 <= m < w.len() implies rows.contains(#[trigger] w[m]) by {
            if m < wp.len() {
                assert(w[m] == wp[m]);
                assert(prev.contains(wp[m]));
                let j = choose|j: int| 0 <= j < prev.len() && prev[j] == wp[m];
                assert(rows[j] == prev[j]);
            } else {
                assert(w[m] == rows[rows.len() - 1]);
            }
        }
    }
}

proof fn lemma_wired_rows_wired(raws: Seq<Seq<char>>)
    ensures
        forall|m: int| 0 <= m < wired_rows(raws).len() ==> #[trigger] wired_rows(raws)[m] is Wired,
    decreases raws.len(),
{
    if raws.len() > 0 {
        lemma_wired_rows_wired(raws.drop_last());
    }
}

proof fn lemma_count_wired(raws: Seq<Seq<char>>, i: int)
    ensures
        count_device(wired_rows(raws), i) == 0,
    decreases raws.len(),
{
    if raws.len() > 0 {
        let prev = wired_rows(raws.drop_last());
        lemma_count_wired(raws.drop_last(), i);
        if wired_rows(raws) != prev {
            assert(wired_rows(raws).drop_last() =~= prev);
        }
    }
}

proof fn lemma_count_bluetooth(ds: Seq<BluetoothDevice>, i: int)
    ensures
        count_device(bluetooth_rows(ds), i) == (if 0 <= i < ds.len() { 1nat } else { 0nat }),
    decreases ds.len(),
{
    if ds.len() > 0 {
        let prev = ds.drop_last();
        lemma_count_bluetooth(prev, i);
        assert(bluetooth_rows(ds).drop_last() =~= bluetooth_rows(prev));
        assert(row_device(bluetooth_rows(ds).last()) == Some(ds.len() - 1));
    } else {
        assert(bluetooth_rows(ds) =~= Seq::<RowView>::empty());
    }
}

/// Every Bluetooth device has exactly one row in the devices table,
/// whatever its state: the row shows the device's alias when the adapter
/// gave one and its address otherwise, and it is a connected row for a
/// connected device, a paired row for a paired one that is not connected,
/// and a nearby row for the others. No row stands for anything else.
pub proof fn law_bluetooth_rows_named(raws: Seq<Seq<char>>, ds: Seq<BluetoothDevice>)
    ensures
        forall|i: int| 0 <= i < ds.len() ==> #[trigger] count_device(device_table(raws, ds), i) == 1,
        forall|k: int|
            0 <= k < device_table(raws, ds).len() && (#[trigger] device_table(raws, ds)[k]) !is Wired
                ==> ({
                let r = device_table(raws, ds)[k];
                let i = row_device(r)->0;
                &&& 0 <= i < ds.len()
                &&& row_name(r) == (match ds[i].alias {
                    Some(a) => a@,
                    None => ds[i].address@,
                })
                &&& ds[i].connected ==> r is Connected
                &&& !ds[i].connected && ds[i].paired ==> r is Paired
                &&& !ds[i].connected && !ds[i].paired ==> r is Nearby
            }),
{
    let w = wired_rows(raws);
    let b = bluetooth_rows(ds);
    let rows = w + b;
    let t = device_table(raws, ds);
    assert forall|i: int| 0 <= i < ds.len() implies #[trigger] count_device(device_table(raws, ds), i) == 1 by {
        lemma_count_wired(raws, i);
        lemma_count_bluetooth(ds, i);
        lemma_count_concat(w, b, i);
        lemma_count_by_rank(rows, i);
        let r0 = with_rank(rows, 0);
        let r1 = with_rank(rows, 1);
        let r2 = with_rank(rows, 2);
        let r3 = with_rank(rows, 3);
        lemma_count_concat(r0, r1, i);
        lemma_count_concat(r0 + r1, r2, i);
        lemma_count_concat(r0 + r1 + r2, r3, i);
    }
    lemma_with_rank_from(rows, 0);
    lemma_with_rank_from(rows, 1);
    lemma_with_rank_from(rows, 2);
    lemma_with_rank_from(rows, 3);
    lemma_wired_rows_wired(raws);
    assert forall|k: int| 0 <= k < t.len() && (#[trigger] t[k]) !is Wired implies ({
        let r = t[k];
        let i = row_device(r)->0;
        &&& 0 <= i < ds.len()
        &&& row_name(r) == (match ds[i].alias {
            Some(a) => a@,
            None => ds[i].address@,
        })
        &&& ds[i].connected ==> r is Connected
        &&& !ds[i].connected && ds[i].paired ==> r is Paired
        &&& !ds[i].connected && !ds[i].paired ==> r is Nearby
    }) by {
        let r0 = with_rank(rows, 0);
        let r1 = with_rank(rows, 1);
        let r2 = with_rank(rows, 2);
        let r3 = with_rank(rows, 3);
        assert(rows.contains(t[k])) by {
            if k < r0.len() {
                assert(t[k] == r0[k]);
            } else if k < r0.len() + r1.len() {
                assert(t[k] == r1[k - r0.len()]);
            } else if k < r0.len() + r1.len() + r2.len() {
                assert(t[k] == r2[k - r0.len() - r1.len()]);
            } else {
                assert(t[k] == r3[k - r0.len() - r1.len() - r2.len()]);
            }
        }
        let j = choose|j: int| 0 <= j < rows.len() && rows[j] == t[k];
        if j < w.len() {
            assert(rows[j] == w[j]);
        } else {
            assert(rows[j] == b[j - w.len()]);
        }
    }
}

proof fn lemma_first_occurrences(names: Seq<Seq<char>>)
    ensures
        forall|i: int, j: int|
            0 <= i < j < first_occurrences(names).len() ==> first_occurrences(names)[i]
                != first_occurrences(names)[j],
        forall|x: Seq<char>| names.contains(x) <==> first_occurrences(names).contains(x),
    decreases names.len(),
{
    if names.len() > 0 {
        let prev = names.drop_last();
        lemma_first_occurrences(prev);
        let f = first_occurrences(names);
        let fp = first_occurrences(prev);
        assert forall|x: Seq<char>| names.contains(x) <==> f.contains(x) by {
            if names.contains(x) {
                let k = choose|k: int| 0 <= k < names.len() && names[k] == x;
                if k < names.len() - 1 {
                    assert(prev[k] == x);
                    assert(prev.contains(x));
                    assert(fp.contains(x));
                    if !fp.contains(names.last()) {
                        let m = choose|m: int| 0 <= m < fp.len() && fp[m] == x;
                        assert(f[m] == x);
                    }
                } else if !fp.contains(names.last()) {
                    assert(f[f.len() - 1] == x);
                }
            }
            if f.contains(x) {
                let m = choose|m: int| 0 <= m < f.len() && f[m] == x;
                if m < fp.len() {
                    assert(fp[m] == x);
                    assert(prev.contains(x));
                    let k = choose|k: int| 0 <= k < prev.len() && prev[k] == x;
                    assert(names[k] == x);
                } else {
                    assert(names[names.len() - 1] == x);
                }
            }
        }
    }
}

/// The wired-device names keep each name once, and every name that udev
/// listed is among them.
pub proof fn law_unique_names(names: Seq<Seq<char>>)
    ensures
        forall|i: int, j: int|
            0 <= i < j < first_occurrences(names).len() ==> first_occurrences(names)[i]
                != first_occurrences(names)[j],
        forall|x: Seq<char>| names.contains(x) <==> first_occurrences(names).contains(x),
{
    lemma_first_occurrences(names);
}

} // verus!

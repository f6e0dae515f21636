//! Emulated devices: a switchable socket with a power draw, a thermometer, and
//! a registry that holds them by id.
use crate::device::{
    DeviceError, InfoDeviceProvider, ProviderError, QueryableDevice, QueryableDeviceProvider,
    ReportableDevice,
};
use crate::text::{
    all_digits, decimal, digit_char, digits_value, dot_index, find_dot, is_digit, lemma_decimal,
    lemma_digit_char, lemma_digits_bound, milli_decimal, parse_digits, pow10, push_milli_decimal, push_signed_decimal,
    signed_decimal, str_eq, thousandths,
};
use crate::home::is_no_device;
use vstd::prelude::*;

verus! {

/// Power is kept in milliwatts; a fresh draw is below one watt.
pub const POWER_SCALE: u32 = 1000;

/// Relies on `rand::random`: a value from the thread-local generator. Nothing
/// is known of it.
pub assume_specification<T>[ rand::random::<T> ]() -> (r: T)
    where
        rand::distributions::Standard: rand::distributions::Distribution<T>,
;

/// An emulated smart socket: on or off, and the power it draws, in milliwatts.
#[derive(Clone, Copy, Debug, PartialEq, Eq, Structural)]
pub struct SmartSocket {
    pub enabled: bool,
    pub power: u32,
}

/// The state after the per-command power update: a socket that is on draws
/// `draw % POWER_SCALE` milliwatts; one that is off keeps its state.
pub open spec fn refreshed(s: SmartSocket, draw: u32) -> SmartSocket {
    if s.enabled {
        SmartSocket { enabled: true, power: draw % POWER_SCALE }
    } else {
        s
    }
}

/// The text of a boolean.
pub open spec fn bool_text(b: bool) -> Seq<char> {
    if b {
        "true"@
    } else {
        "false"@
    }
}

/// A number in thousandths as a structured-encoding number: a whole number
/// keeps a `.0`.
pub open spec fn json_milli(m: nat) -> Seq<char> {
    if m % 1000 == 0 {
        milli_decimal(m) + ".0"@
    } else {
        milli_decimal(m)
    }
}

/// The structured encoding of a socket's state: `{"enabled":<bool>,"power":<watts>}`.
pub open spec fn state_text(s: SmartSocket) -> Seq<char> {
    "{\"enabled\":"@ + bool_text(s.enabled) + ",\"power\":"@ + json_milli(s.power as nat) + "}"@
}

/// The human-readable status of a socket.
pub open spec fn socket_status_text(s: SmartSocket) -> Seq<char> {
    "SmartSocket is "@ + (if s.enabled {
        "on"@
    } else {
        "off"@
    }) + " and consumes "@ + milli_decimal(s.power as nat) + " W"@
}

/// A command applied to a socket: `SET1` switches it on, `SET0` switches it
/// off with no draw, `GET` only reads, any other command changes nothing; then
/// a socket that is on gets a fresh draw, on every command. `SET1`, `SET0` and
/// `GET` answer with the encoded state; any other command with an empty text.
pub open spec fn apply(s: SmartSocket, command: Seq<char>, draw: u32) -> (SmartSocket, Seq<char>) {
    let switched = if command == "SET1"@ {
        SmartSocket { enabled: true, ..s }
    } else if command == "SET0"@ {
        SmartSocket { enabled: false, power: 0 }
    } else {
        s
    };
    let t = refreshed(switched, draw);
    if command == "SET1"@ || command == "SET0"@ || command == "GET"@ {
        (t, state_text(t))
    } else {
        (t, Seq::empty())
    }
}

impl SmartSocket {
    /// A socket that is off and draws nothing.
    pub fn new() -> (r: SmartSocket)
        ensures
            !r.enabled,
            r.power == 0,
    {
        SmartSocket { enabled: false, power: 0 }
    }

    /// The structured encoding of the state.
    pub fn state(&self) -> (r: String)
        ensures
            r@ == state_text(*self),
    {
        let mut r = String::from_str("{\"enabled\":");
        if self.enabled {
            r.append("true");
        } else {
            r.append("false");
        }
        r.append(",\"power\":");
        push_milli_decimal(&mut r, self.power);
        if self.power % POWER_SCALE == 0 {
            r.append(".0");
        }
        r.append("}");
        r
    }

    /// The human-readable status.
    pub fn status_text(&self) -> (r: String)
        ensures
            r@ == socket_status_text(*self),
    {
        let mut r = String::from_str("SmartSocket is ");
        if self.enabled {
            r.append("on");
        } else {
            r.append("off");
        }
        r.append(" and consumes ");
        push_milli_decimal(&mut r, self.power);
        r.append(" W");
        r
    }

    /// Applies `command`, with `draw` as the random source of the power update.
    pub fn execute_with(&mut self, command: &str, draw: u32) -> (r: String)
        ensures
            (*final(self), r@) == apply(*old(self), command@, draw),
    {
        let known = if str_eq(command, "SET1") {
            self.enabled = true;
            true
        } else if str_eq(command, "SET0") {
            self.enabled = false;
            self.power = 0;
            true
        } else {
            str_eq(command, "GET")
        };
        if self.enabled {
            self.power = draw % POWER_SCALE;
        }
        if known {
            self.state()
        } else {
            String::new()
        }
    }
}

impl ReportableDevice for SmartSocket {
    fn status(&self) -> (r: Result<String, DeviceError>)
        ensures
            r matches Ok(t) && t@ == socket_status_text(*self),
    {
        Ok(self.status_text())
    }
}

impl QueryableDevice for SmartSocket {
    fn execute(&mut self, command: &str) -> (r: Result<String, DeviceError>)
        ensures
            r is Ok,
            exists|d: u32| (*final(self), r->Ok_0@) == apply(*old(self), command@, d),
    {
        let draw: u32 = rand::random::<u32>();
        Ok(self.execute_with(command, draw))
    }
}

/// After `SET1` a socket is on, whatever its state was, and it draws the fresh
/// value: toggling makes the draw drift too.
pub proof fn lemma_set_on(s: SmartSocket, draw: u32)
    ensures
        apply(s, "SET1"@, draw).0 == (SmartSocket { enabled: true, power: draw % POWER_SCALE }),
{
}

/// After `SET0` a socket is off and draws exactly nothing, whatever it drew
/// before.
pub proof fn lemma_set_off(s: SmartSocket, draw: u32)
    ensures
        !apply(s, "SET0"@, draw).0.enabled,
        apply(s, "SET0"@, draw).0.power == 0,
{
    reveal_strlit("SET1");
    reveal_strlit("SET0");
    assert("SET0"@[3] != "SET1"@[3]);
}

/// An emulated thermometer with a reading in whole degrees Celsius.
#[derive(Clone, Copy, Debug, PartialEq, Eq, Structural)]
pub struct SmartTermometer {
    pub temperature: i32,
}

/// The human-readable status of a thermometer.
pub open spec fn thermometer_status_text(t: SmartTermometer) -> Seq<char> {
    "SmartTermometer shows: "@ + signed_decimal(t.temperature as int) + " °C"@
}

impl SmartTermometer {
    /// A thermometer that reads zero.
    pub fn new() -> (r: SmartTermometer)
        ensures
            r.temperature == 0,
    {
        SmartTermometer { temperature: 0 }
    }

    /// The human-readable status.
    pub fn status_text(&self) -> (r: String)
        ensures
            r@ == thermometer_status_text(*self),
    {
        let mut r = String::from_str("SmartTermometer shows: ");
        push_signed_decimal(&mut r, self.temperature);
        r.append(" °C");
        r
    }
}

impl ReportableDevice for SmartTermometer {
    fn status(&self) -> (r: Result<String, DeviceError>)
        ensures
            r matches Ok(t) && t@ == thermometer_status_text(*self),
    {
        Ok(self.status_text())
    }
}

impl QueryableDevice for SmartTermometer {
    /// `GET` reads the status; any other command is a no-op with an empty answer.
    fn execute(&mut self, command: &str) -> (r: Result<String, DeviceError>)
        ensures
            *final(self) == *old(self),
            r matches Ok(t) && t@ == thermometer_answer(*old(self), command@),
    {
        if str_eq(command, "GET") {
            Ok(self.status_text())
        } else {
            Ok(String::new())
        }
    }
}

/// A thermometer's answer to a command: its status for `GET`, an empty text
/// for any other command, which changes nothing.
pub open spec fn thermometer_answer(t: SmartTermometer, command: Seq<char>) -> Seq<char> {
    if command == "GET"@ {
        thermometer_status_text(t)
    } else {
        Seq::empty()
    }
}

/// An emulated device of one of the two kinds.
#[derive(Clone, Copy, Debug, PartialEq, Eq, Structural)]
pub enum EmulatedDevice {
    Socket(SmartSocket),
    Thermometer(SmartTermometer),
}

/// The status text of an emulated device.
pub open spec fn device_status_text(d: EmulatedDevice) -> Seq<char> {
    match d {
        EmulatedDevice::Socket(s) => socket_status_text(s),
        EmulatedDevice::Thermometer(t) => thermometer_status_text(t),
    }
}

/// A device after a command, and its answer.
pub open spec fn device_apply(d: EmulatedDevice, command: Seq<char>, draw: u32) -> (
    EmulatedDevice,
    Seq<char>,
) {
    match d {
        EmulatedDevice::Socket(s) => (
            EmulatedDevice::Socket(apply(s, command, draw).0),
            apply(s, command, draw).1,
        ),
        EmulatedDevice::Thermometer(t) => (d, thermometer_answer(t, command)),
    }
}

/// `r` is a success that carries the text `t`.
pub open spec fn answers<E>(r: Result<String, E>, t: Seq<char>) -> bool {
    r matches Ok(s) && s@ == t
}

/// No two entries share an id.
pub open spec fn unique_ids(entries: Seq<(String, EmulatedDevice)>) -> bool {
    forall|i: int, j: int|
        0 <= i < entries.len() && 0 <= j < entries.len() && i != j ==> entries[i].0@
            != entries[j].0@
}

/// The devices of the entries by id.
pub open spec fn entries_map(entries: Seq<(String, EmulatedDevice)>) -> Map<
    Seq<char>,
    EmulatedDevice,
> {
    Map::new(
        |id: Seq<char>| exists|i: int| 0 <= i < entries.len() && entries[i].0@ == id,
        |id: Seq<char>| entries[choose|i: int| 0 <= i < entries.len() && entries[i].0@ == id].1,
    )
}

proof fn lemma_entry_found(entries: Seq<(String, EmulatedDevice)>, i: int)
    requires
        unique_ids(entries),
        0 <= i < entries.len(),
    ensures
        entries_map(entries).contains_key(entries[i].0@),
        entries_map(entries)[entries[i].0@] == entries[i].1,
{
    let id = entries[i].0@;
    assert(entries_map(entries).contains_key(id));
    let c = choose|k: int| 0 <= k < entries.len() && entries[k].0@ == id;
    assert(c == i);
}

proof fn lemma_entry_replaced(
    before: Seq<(String, EmulatedDevice)>,
    after: Seq<(String, EmulatedDevice)>,
    i: int,
    device: EmulatedDevice,
)
    requires
        unique_ids(before),
        0 <= i < before.len(),
        after.len() == before.len(),
        after[i].0@ == before[i].0@,
        after[i].1 == device,
        forall|k: int| 0 <= k < before.len() && k != i ==> after[k] == before[k],
    ensures
        unique_ids(after),
        entries_map(after) == entries_map(before).insert(before[i].0@, device),
{
    let id = before[i].0@;
    assert(unique_ids(after)) by {
        assert forall|a: int, b: int|
            0 <= a < after.len() && 0 <= b < after.len() && a != b implies after[a].0@
            != after[b].0@ by {
            assert(after[a].0@ == before[a].0@);
            assert(after[b].0@ == before[b].0@);
        }
    }
    let m = entries_map(before).insert(id, device);
    assert forall|key: Seq<char>| #[trigger] entries_map(after).contains_key(key)
        == m.contains_key(key) by {
        if entries_map(before).contains_key(key) {
            let c = choose|k: int| 0 <= k < before.len() && before[k].0@ == key;
            assert(after[c].0@ == key);
        }
        if entries_map(after).contains_key(key) {
            let c = choose|k: int| 0 <= k < after.len() && after[k].0@ == key;
            assert(before[c].0@ == key);
        }
        if key == id {
            assert(after[i].0@ == key);
        }
    }
    assert forall|key: Seq<char>| #[trigger] entries_map(after).contains_key(key) implies entries_map(
        after,
    )[key] == m[key] by {
        let c = choose|k: int| 0 <= k < after.len() && after[k].0@ == key;
        lemma_entry_found(after, c);
        if c != i {
            lemma_entry_found(before, c);
        }
    }
    assert(entries_map(after) =~= m);
}

proof fn lemma_entry_pushed(
    before: Seq<(String, EmulatedDevice)>,
    entry: (String, EmulatedDevice),
)
    requires
        unique_ids(before),
        !entries_map(before).contains_key(entry.0@),
    ensures
        unique_ids(before.push(entry)),
        entries_map(before.push(entry)) == entries_map(before).insert(entry.0@, entry.1),
{
    let after = before.push(entry);
    let n = before.len() as int;
    let id = entry.0@;
    assert forall|k: int| 0 <= k < n implies before[k].0@ != id by {
        if before[k].0@ == id {
            assert(entries_map(before).contains_key(id));
        }
    }
    assert(unique_ids(after)) by {
        assert forall|a: int, b: int|
            0 <= a < after.len() && 0 <= b < after.len() && a != b implies after[a].0@
            != after[b].0@ by {
            if a < n && b < n {
                assert(after[a] == before[a] && after[b] == before[b]);
            } else if a < n {
                assert(after[a] == before[a]);
            } else {
                assert(after[b] == before[b]);
            }
        }
    }
    let m = entries_map(before).insert(id, entry.1);
    assert forall|key: Seq<char>| #[trigger] entries_map(after).contains_key(key)
        == m.contains_key(key) by {
        if entries_map(before).contains_key(key) {
            let c = choose|k: int| 0 <= k < before.len() && before[k].0@ == key;
            assert(after[c] == before[c]);
        }
        if entries_map(after).contains_key(key) && key != id {
            let c = choose|k: int| 0 <= k < after.len() && after[k].0@ == key;
            assert(after[c] == before[c]);
        }
        if key == id {
            assert(after[n].0@ == key);
        }
    }
    assert forall|key: Seq<char>| #[trigger] entries_map(after).contains_key(key) implies entries_map(
        after,
    )[key] == m[key] by {
        let c = choose|k: int| 0 <= k < after.len() && after[k].0@ == key;
        lemma_entry_found(after, c);
        if c != n {
            assert(after[c] == before[c]);
            lemma_entry_found(before, c);
        }
    }
    assert(entries_map(after) =~= m);
}

proof fn lemma_entry_removed(before: Seq<(String, EmulatedDevice)>, i: int)
    requires
        unique_ids(before),
        0 <= i < before.len(),
    ensures
        unique_ids(before.remove(i)),
        entries_map(before.remove(i)) == entries_map(before).remove(before[i].0@),
{
    let after = before.remove(i);
    let id = before[i].0@;
    let old_index = |k: int| if k < i { k } else { k + 1 };
    assert forall|k: int| 0 <= k < after.len() implies #[trigger] after[k] == before[old_index(k)] by {}
    assert(unique_ids(after)) by {
        assert forall|a: int, b: int|
            0 <= a < after.len() && 0 <= b < after.len() && a != b implies after[a].0@
            != after[b].0@ by {
            assert(after[a] == before[old_index(a)]);
            assert(after[b] == before[old_index(b)]);
        }
    }
    let m = entries_map(before).remove(id);
    assert forall|key: Seq<char>| #[trigger] entries_map(after).contains_key(key)
        == m.contains_key(key) by {
        if entries_map(after).contains_key(key) {
            let c = choose|k: int| 0 <= k < after.len() && after[k].0@ == key;
            assert(after[c] == before[old_index(c)]);
            assert(old_index(c) != i);
        }
        if m.contains_key(key) {
            let c = choose|k: int| 0 <= k < before.len() && before[k].0@ == key;
            assert(c != i);
            let n = if c < i { c } else { c - 1 };
            assert(after[n] == before[c]);
        }
    }
    assert forall|key: Seq<char>| #[trigger] entries_map(after).contains_key(key) implies entries_map(
        after,
    )[key] == m[key] by {
        let c = choose|k: int| 0 <= k < after.len() && after[k].0@ == key;
        lemma_entry_found(after, c);
        assert(after[c] == before[old_index(c)]);
        lemma_entry_found(before, old_index(c));
    }
    assert(entries_map(after) =~= m);
}

fn find_entry(entries: &Vec<(String, EmulatedDevice)>, id: &str) -> (r: Option<usize>)
    requires
        unique_ids(entries@),
    ensures
        match r {
            Some(i) => i < entries@.len() && entries@[i as int].0@ == id@ && entries_map(
                entries@,
            ).contains_key(id@) && entries_map(entries@)[id@] == entries@[i as int].1,
            None => !entries_map(entries@).contains_key(id@),
        },
{
    let mut i: usize = 0;
    while i < entries.len()
        invariant
            unique_ids(entries@),
            i <= entries@.len(),
            forall|k: int| 0 <= k < i ==> entries@[k].0@ != id@,
        decreases entries@.len() - i,
    {
        if str_eq(entries[i].0.as_str(), id) {
            proof {
                lemma_entry_found(entries@, i as int);
            }
            return Some(i);
        }
        i = i + 1;
    }
    None
}

/// The emulated devices of a home, each under a unique id.
pub struct DeviceSet {
    entries: Vec<(String, EmulatedDevice)>,
}

impl View for DeviceSet {
    type V = Map<Seq<char>, EmulatedDevice>;

    closed spec fn view(&self) -> Map<Seq<char>, EmulatedDevice> {
        entries_map(self.entries@)
    }
}

impl DeviceSet {
    /// The ids are unique.
    #[verifier::type_invariant]
    closed spec fn wf(&self) -> bool {
        unique_ids(self.entries@)
    }

    /// A set with no device.
    pub fn new() -> (r: DeviceSet)
        ensures
            r@ == Map::<Seq<char>, EmulatedDevice>::empty(),
    {
        let r = DeviceSet { entries: Vec::new() };
        assert(r@ =~= Map::<Seq<char>, EmulatedDevice>::empty());
        r
    }

    fn find(&self, id: &str) -> (r: Option<usize>)
        ensures
            match r {
                Some(i) => i < self.entries@.len() && self.entries@[i as int].0@ == id@
                    && self@.contains_key(id@) && self@[id@] == self.entries@[i as int].1,
                None => !self@.contains_key(id@),
            },
    {
        proof {
            use_type_invariant(self);
        }
        find_entry(&self.entries, id)
    }

    /// Adds a device under `id`; a device already under that id is replaced
    /// and returned.
    pub fn add(&mut self, id: &str, device: EmulatedDevice) -> (r: Option<EmulatedDevice>)
        ensures
            final(self)@ == old(self)@.insert(id@, device),
            r == (if old(self)@.contains_key(id@) {
                Some(old(self)@[id@])
            } else {
                None
            }),
    {
        proof {
            use_type_invariant(&*self);
        }
        let mut entries: Vec<(String, EmulatedDevice)> = Vec::new();
        std::mem::swap(&mut self.entries, &mut entries);
        let ghost before = entries@;
        let r = match find_entry(&entries, id) {
            Some(i) => {
                let previous = entries[i].1;
                entries.set(i, (String::from_str(id), device));
                proof {
                    lemma_entry_replaced(before, entries@, i as int, device);
                }
                Some(previous)
            },
            None => {
                entries.push((String::from_str(id), device));
                proof {
                    lemma_entry_pushed(before, entries@.last());
                    assert(entries@ == before.push(entries@.last()));
                }
                None
            },
        };
        self.entries = entries;
        r
    }

    /// Removes the device under `id` and returns it; `None`, and no change,
    /// where there is none.
    pub fn remove(&mut self, id: &str) -> (r: Option<EmulatedDevice>)
        ensures
            final(self)@ == old(self)@.remove(id@),
            r == (if old(self)@.contains_key(id@) {
                Some(old(self)@[id@])
            } else {
                None
            }),
    {
        proof {
            use_type_invariant(&*self);
        }
        let mut entries: Vec<(String, EmulatedDevice)> = Vec::new();
        std::mem::swap(&mut self.entries, &mut entries);
        let ghost before = entries@;
        let r = match find_entry(&entries, id) {
            Some(i) => {
                let (_, previous) = entries.remove(i);
                proof {
                    lemma_entry_removed(before, i as int);
                }
                Some(previous)
            },
            None => {
                assert(entries_map(before).remove(id@) =~= entries_map(before));
                None
            },
        };
        self.entries = entries;
        r
    }
}

impl EmulatedDevice {
    /// The status text of the device.
    pub fn status_text(&self) -> (r: String)
        ensures
            r@ == device_status_text(*self),
    {
        match self {
            EmulatedDevice::Socket(s) => s.status_text(),
            EmulatedDevice::Thermometer(t) => t.status_text(),
        }
    }

    /// Applies `command` to the device, with `draw` as the random source of a
    /// socket's power update.
    pub fn execute_with(&mut self, command: &str, draw: u32) -> (r: Result<String, ProviderError>)
        ensures
            *final(self) == device_apply(*old(self), command@, draw).0,
            answers(r, device_apply(*old(self), command@, draw).1),
    {
        match self {
            EmulatedDevice::Socket(s) => {
                let mut socket = *s;
                let answer = socket.execute_with(command, draw);
                *self = EmulatedDevice::Socket(socket);
                Ok(answer)
            },
            EmulatedDevice::Thermometer(t) => {
                if str_eq(command, "GET") {
                    Ok(t.status_text())
                } else {
                    Ok(String::new())
                }
            },
        }
    }
}

impl DeviceSet {
    /// The status of the device under `id`, or `NoDeviceError` with the id.
    pub fn status_of(&self, id: &str) -> (r: Result<String, ProviderError>)
        ensures
            !self@.contains_key(id@) ==> is_no_device(r, id@),
            self@.contains_key(id@) ==> answers(r, device_status_text(self@[id@])),
    {
        match self.find(id) {
            Some(i) => Ok(self.entries[i].1.status_text()),
            None => Err(ProviderError::NoDeviceError(String::from_str(id))),
        }
    }

    /// Applies `command` to the device under `id`, with `draw` as the random
    /// source of a socket's power update; `NoDeviceError` with the id, and no
    /// change, where there is no such device.
    pub fn execute_with(&mut self, id: &str, command: &str, draw: u32) -> (r: Result<
        String,
        ProviderError,
    >)
        ensures
            !old(self)@.contains_key(id@) ==> is_no_device(r, id@) && final(self)@ == old(self)@,
            old(self)@.contains_key(id@) ==> final(self)@ == old(self)@.insert(
                id@,
                device_apply(old(self)@[id@], command@, draw).0,
            ) && answers(r, device_apply(old(self)@[id@], command@, draw).1),
    {
        match self.find(id) {
            Some(i) => {
                let mut device = self.entries[i].1;
                let answer = device.execute_with(command, draw);
                self.add(id, device);
                answer
            },
            None => Err(ProviderError::NoDeviceError(String::from_str(id))),
        }
    }
}

impl InfoDeviceProvider for DeviceSet {
    fn status(&self, device_id: &str) -> (r: Result<String, ProviderError>)
        ensures
            !self@.contains_key(device_id@) ==> is_no_device(r, device_id@),
            self@.contains_key(device_id@) ==> answers(r, device_status_text(self@[device_id@])),
    {
        self.status_of(device_id)
    }
}

impl QueryableDeviceProvider for DeviceSet {
    /// Applies the command to the device, with a random draw for a socket's
    /// power update.
    fn execute(&mut self, device_id: &str, command: &str) -> (r: Result<String, ProviderError>)
        ensures
            !old(self)@.contains_key(device_id@) ==> is_no_device(r, device_id@) && final(self)@
                == old(self)@,
            old(self)@.contains_key(device_id@) ==> exists|d: u32|
                final(self)@ == old(self)@.insert(
                    device_id@,
                    device_apply(old(self)@[device_id@], command@, d).0,
                ) && answers(r, device_apply(old(self)@[device_id@], command@, d).1),
    {
        let draw: u32 = rand::random::<u32>();
        self.execute_with(device_id, command, draw)
    }
}

/// What a fraction of `len` digits is multiplied by to give thousandths.
pub open spec fn frac_scale(len: nat) -> nat {
    if len == 1 {
        100
    } else if len == 2 {
        10
    } else {
        1
    }
}

/// `t` without one trailing newline.
pub open spec fn without_newline(t: Seq<char>) -> Seq<char> {
    if t.len() > 0 && t.last() == '\n' {
        t.drop_last()
    } else {
        t
    }
}

/// The value in thousandths of a number `<whole>.<fraction>` with one to
/// three fraction digits and a whole part of at most 4294967; `None` for any
/// other text.
pub open spec fn number_value(num: Seq<char>) -> Option<nat> {
    let dot = dot_index(num) as int;
    if dot >= num.len() {
        None
    } else {
        let w = num.subrange(0, dot);
        let f = num.subrange(dot + 1, num.len() as int);
        if all_digits(w) && all_digits(f) && 1 <= f.len() <= 3 && digits_value(w) <= 4294967 {
            Some(digits_value(w) * 1000 + digits_value(f) * frac_scale(f.len()))
        } else {
            None
        }
    }
}

/// The socket state that a response encodes, where it is the structured
/// encoding of a state, with or without a trailing newline; `None` otherwise.
pub open spec fn parse_state(t: Seq<char>) -> Option<SmartSocket> {
    if exists|s: SmartSocket| state_text(s) == without_newline(t) {
        Some(choose|s: SmartSocket| state_text(s) == without_newline(t))
    } else {
        None
    }
}

/// The state that `decode_state` reads, step by step: the switch from the
/// first letter of its value, the power from the number, kept only where the
/// state's encoding gives back the text.
spec fn read_state(t: Seq<char>) -> Option<SmartSocket> {
    let body = without_newline(t);
    if body.len() < 26 {
        None
    } else {
        let enabled = body[11] == 't';
        let start: int = if enabled {
            24
        } else {
            25
        };
        match number_value(body.subrange(start, body.len() - 1)) {
            None => None,
            Some(m) => if m > u32::MAX {
                None
            } else {
                let c = SmartSocket { enabled, power: m as u32 };
                if state_text(c) == body {
                    Some(c)
                } else {
                    None
                }
            },
        }
    }
}

/// Reads `s[from..to]` as `number_value` says.
fn read_number(s: &str, from: usize, to: usize) -> (r: Option<u64>)
    requires
        from <= to <= s@.len(),
    ensures
        match r {
            None => number_value(s@.subrange(from as int, to as int)) is None,
            Some(v) => number_value(s@.subrange(from as int, to as int)) == Some(v as nat),
        },
{
    let ghost num = s@.subrange(from as int, to as int);
    let dot = find_dot(s, from, to);
    if dot == to {
        return None;
    }
    let ghost w = num.subrange(0, dot - from);
    let ghost f = num.subrange(dot - from + 1, num.len() as int);
    assert(w =~= s@.subrange(from as int, dot as int));
    assert(f =~= s@.subrange(dot + 1, to as int));
    let whole = match parse_digits(s, from, dot, 4294967) {
        Some(v) => v,
        None => {
            return None;
        },
    };
    let flen = to - (dot + 1);
    if flen < 1 || flen > 3 {
        return None;
    }
    proof {
        if all_digits(f) {
            lemma_digits_bound(f);
            assert(pow10(f.len()) <= 1000) by {
                assert(pow10(0) == 1);
                assert(pow10(1) == 10);
                assert(pow10(2) == 100);
                assert(pow10(3) == 1000);
            }
        }
    }
    let frac = match parse_digits(s, dot + 1, to, 999) {
        Some(v) => v,
        None => {
            return None;
        },
    };
    let scale: u64 = if flen == 1 {
        100
    } else if flen == 2 {
        10
    } else {
        1
    };
    assert(whole * 1000 + frac * scale <= 4294967 * 1000 + 999 * 100) by (nonlinear_arith)
        requires
            whole <= 4294967,
            frac <= 999,
            scale <= 100,
    ;
    Some(whole * 1000 + frac * scale)
}

/// Decodes a socket state from a response, as `parse_state` says.
pub fn decode_state(t: &str) -> (r: Option<SmartSocket>)
    ensures
        r == parse_state(t@),
{
    let r = read_state_exec(t);
    proof {
        lemma_read_is_parse(t@);
    }
    r
}

fn read_state_exec(t: &str) -> (r: Option<SmartSocket>)
    ensures
        r == read_state(t@),
{
    let n = t.unicode_len();
    let body_len = if n > 0 && t.get_char(n - 1) == '\n' {
        n - 1
    } else {
        n
    };
    let body = t.substring_char(0, body_len);
    assert(body@ == without_newline(t@));
    if body_len < 26 {
        return None;
    }
    let enabled = body.get_char(11) == 't';
    let start: usize = if enabled {
        24
    } else {
        25
    };
    let m = match read_number(body, start, body_len - 1) {
        Some(m) => m,
        None => {
            return None;
        },
    };
    if m > 0xffff_ffff {
        return None;
    }
    let c = SmartSocket { enabled, power: m as u32 };
    assert(enabled == (body@[11] == 't'));
    assert(number_value(body@.subrange(start as int, body@.len() - 1)) == Some(m as nat));
    assert(c == SmartSocket { enabled: body@[11] == 't', power: (m as nat) as u32 });
    let encoded = c.state();
    if str_eq(encoded.as_str(), body) {
        Some(c)
    } else {
        None
    }
}

proof fn lemma_dot_after_digits(a: Seq<char>, b: Seq<char>)
    requires
        all_digits(a),
    ensures
        dot_index(a + seq!['.'] + b) == a.len(),
    decreases a.len(),
{
    let x = a + seq!['.'] + b;
    if a.len() == 0 {
        assert(x[0] == '.');
    } else {
        let rest = a.drop_first();
        assert(all_digits(rest)) by {
            assert forall|i: int| 0 <= i < rest.len() implies #[trigger] is_digit(rest[i]) by {
                assert(rest[i] == a[i + 1]);
            }
        }
        assert(is_digit(a[0]));
        assert(x[0] == a[0]);
        assert(x.drop_first() =~= rest + seq!['.'] + b);
        lemma_dot_after_digits(rest, b);
    }
}

proof fn lemma_thousandths(f: nat)
    requires
        0 < f < 1000,
    ensures
        all_digits(thousandths(f)),
        1 <= thousandths(f).len() <= 3,
        digits_value(thousandths(f)) * frac_scale(thousandths(f).len()) == f,
{
    let d1 = f / 100;
    let d2 = f / 10 % 10;
    let d3 = f % 10;
    lemma_digit_char(d1);
    lemma_digit_char(d2);
    lemma_digit_char(d3);
    assert(f == 100 * d1 + 10 * d2 + d3);
    let x = thousandths(f);
    let one = seq![digit_char(d1)];
    let two = seq![digit_char(d1), digit_char(d2)];
    assert(one.drop_last() =~= Seq::<char>::empty());
    assert(two.drop_last() =~= one);
    assert(digits_value(Seq::<char>::empty()) == 0);
    assert(digits_value(one) == d1);
    assert(digits_value(two) == d1 * 10 + d2);
    if d3 != 0 {
        assert(x.len() == 3);
        assert(x.drop_last() =~= two);
        assert(digits_value(x) == (d1 * 10 + d2) * 10 + d3);
        assert(frac_scale(x.len()) == 1);
        assert(all_digits(x)) by {
            assert(is_digit(x[0]) && is_digit(x[1]) && is_digit(x[2]));
        }
    } else if d2 != 0 {
        assert(x =~= two);
        assert(frac_scale(x.len()) == 10);
        assert(digits_value(x) * 10 == f);
        assert(all_digits(x)) by {
            assert(is_digit(x[0]) && is_digit(x[1]));
        }
    } else {
        assert(x =~= one);
        assert(frac_scale(x.len()) == 100);
        assert(digits_value(x) * 100 == f);
        assert(all_digits(x)) by {
            assert(is_digit(x[0]));
        }
    }
}

proof fn lemma_number_round_trip(m: nat)
    requires
        m <= u32::MAX,
    ensures
        number_value(json_milli(m)) == Some(m),
        json_milli(m).len() >= 3,
{
    let w = m / 1000;
    let f = m % 1000;
    lemma_decimal(w);
    reveal_strlit(".0");
    let frac = if f == 0 {
        seq!['0']
    } else {
        thousandths(f)
    };
    let num = json_milli(m);
    if f == 0 {
        assert(num =~= decimal(w) + seq!['.'] + frac);
        assert(frac.drop_last() =~= Seq::<char>::empty());
        assert(digits_value(Seq::<char>::empty()) == 0);
        assert(digits_value(frac) == 0);
        assert(all_digits(frac)) by {
            assert(is_digit(frac[0]));
        }
    } else {
        lemma_thousandths(f);
        assert(num =~= decimal(w) + seq!['.'] + frac);
    }
    lemma_dot_after_digits(decimal(w), frac);
    let dot = decimal(w).len() as int;
    assert(num.subrange(0, dot) =~= decimal(w));
    assert(num.subrange(dot + 1, num.len() as int) =~= frac);
    assert(w * 1000 + f == m);
    assert(w <= 4294967);
    assert(digits_value(frac) * frac_scale(frac.len()) == f);
    assert(dot_index(num) == dot);
    assert(dot < num.len());
}

proof fn lemma_read_round_trip(s: SmartSocket)
    ensures
        read_state(state_text(s)) == Some(s),
        read_state(state_text(s) + "\n"@) == Some(s),
        without_newline(state_text(s)) == state_text(s),
        without_newline(state_text(s) + "\n"@) == state_text(s),
{
    reveal_strlit("{\"enabled\":");
    reveal_strlit("true");
    reveal_strlit("false");
    reveal_strlit(",\"power\":");
    reveal_strlit("}");
    reveal_strlit("\n");
    let body = state_text(s);
    let json = json_milli(s.power as nat);
    lemma_number_round_trip(s.power as nat);
    let b = bool_text(s.enabled);
    let start: int = 11 + b.len() as int;
    assert(body[11] == b[0]);
    assert(body.subrange(start + 9, body.len() - 1) =~= json);
    assert(body.last() == '}');
    let t = body + "\n"@;
    assert(t.drop_last() =~= body);
}

proof fn lemma_read_is_parse(t: Seq<char>)
    ensures
        read_state(t) == parse_state(t),
{
    let body = without_newline(t);
    if exists|s: SmartSocket| state_text(s) == body {
        let s = choose|s: SmartSocket| state_text(s) == body;
        lemma_read_round_trip(s);
        assert(without_newline(body) == body);
        assert(read_state(t) == read_state(body));
    } else {
        if read_state(t) is Some {
            let c = read_state(t)->0;
            assert(state_text(c) == body);
        }
    }
}

/// The structured encoding of a state decodes back to that state, with or
/// without the newline that ends a reply.
pub proof fn lemma_state_round_trip(s: SmartSocket)
    ensures
        parse_state(state_text(s)) == Some(s),
        parse_state(state_text(s) + "\n"@) == Some(s),
{
    lemma_read_round_trip(s);
    lemma_read_is_parse(state_text(s));
    lemma_read_is_parse(state_text(s) + "\n"@);
}

/// A socket device that got `SET1` answers a later `GET` with an encoded
/// state that is on, whatever the draws were, and the answer decodes to the
/// device's state.
pub proof fn lemma_set_on_then_get(s: SmartSocket, first: u32, second: u32)
    ensures
        ({
            let on = device_apply(EmulatedDevice::Socket(s), "SET1"@, first).0;
            let (after, answer) = device_apply(on, "GET"@, second);
            after matches EmulatedDevice::Socket(t) && t.enabled && parse_state(answer) == Some(t)
        }),
{
    reveal_strlit("GET");
    reveal_strlit("SET1");
    reveal_strlit("SET0");
    assert("GET"@.len() != "SET1"@.len());
    assert("GET"@.len() != "SET0"@.len());
    let on = apply(s, "SET1"@, first).0;
    lemma_state_round_trip(apply(on, "GET"@, second).0);
}

} // verus!

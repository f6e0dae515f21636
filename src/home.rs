//! The registry of rooms and device ids, the query dispatcher and the report.
use crate::device::{
    format_error_text, home_error_text, no_device_text, provider_error_text, HomeError, InfoDeviceProvider, ProviderError,
    QueryableDeviceProvider,
};
use crate::text::str_eq;
use vstd::prelude::*;

verus! {

/// A room as the registry sees it: its id and the ids of its devices, in order.
pub type RoomModel = (Seq<char>, Seq<Seq<char>>);

/// The abstract state of a home: its id and its rooms, in order of first insertion.
pub struct HomeModel {
    pub id: Seq<char>,
    pub rooms: Seq<RoomModel>,
}

/// The characters of each string in a sequence.
pub open spec fn strings_view(v: Seq<String>) -> Seq<Seq<char>> {
    v.map_values(|s: String| s@)
}

/// The characters of each string slice in a sequence.
pub open spec fn strs_view(v: Seq<&str>) -> Seq<Seq<char>> {
    v.map_values(|s: &str| s@)
}

/// No two rooms share an id.
pub open spec fn unique_room_ids(rooms: Seq<RoomModel>) -> bool {
    forall|i: int, j: int|
        0 <= i < rooms.len() && 0 <= j < rooms.len() && i != j ==> rooms[i].0 != rooms[j].0
}

/// Whether some room has the given id.
pub open spec fn has_room(rooms: Seq<RoomModel>, id: Seq<char>) -> bool {
    exists|i: int| 0 <= i < rooms.len() && rooms[i].0 == id
}

/// The position of the room with the given id, where there is one.
pub open spec fn room_index(rooms: Seq<RoomModel>, id: Seq<char>) -> int
    recommends
        has_room(rooms, id),
{
    choose|i: int| 0 <= i < rooms.len() && rooms[i].0 == id
}

/// The device ids of the room with the given id, or `None` where there is no such room.
pub open spec fn room_devices(rooms: Seq<RoomModel>, id: Seq<char>) -> Option<Seq<Seq<char>>> {
    if has_room(rooms, id) {
        Some(rooms[room_index(rooms, id)].1)
    } else {
        None
    }
}

/// The rooms after a room is added: a room with the same id is replaced in
/// place, otherwise the new room goes last.
pub open spec fn insert_room(rooms: Seq<RoomModel>, id: Seq<char>, devices: Seq<Seq<char>>) -> Seq<
    RoomModel,
> {
    if has_room(rooms, id) {
        rooms.update(room_index(rooms, id), (id, devices))
    } else {
        rooms.push((id, devices))
    }
}

/// The ids of the rooms, in order.
pub open spec fn room_ids(rooms: Seq<RoomModel>) -> Seq<Seq<char>> {
    rooms.map_values(|r: RoomModel| r.0)
}

/// How an address resolves: `None` where it names a device of a room,
/// otherwise the identifier that did not resolve.
pub open spec fn unresolved(rooms: Seq<RoomModel>, room: Seq<char>, device: Seq<char>) -> Option<
    Seq<char>,
> {
    match room_devices(rooms, room) {
        None => Some(room),
        Some(devices) => if devices.contains(device) {
            None
        } else {
            Some(device)
        },
    }
}

/// `r` is a `NoDeviceError` that carries `id`.
pub open spec fn is_no_device<T>(r: Result<T, ProviderError>, id: Seq<char>) -> bool {
    match r {
        Err(ProviderError::NoDeviceError(s)) => s@ == id,
        _ => false,
    }
}

struct Room {
    id: String,
    devices: Vec<String>,
}

/// A home: an id and a set of rooms, each with a list of device ids.
pub struct SmartHome {
    pub id: String,
    rooms: Vec<Room>,
}

impl View for SmartHome {
    type V = HomeModel;

    closed spec fn view(&self) -> HomeModel {
        HomeModel {
            id: self.id@,
            rooms: self.rooms@.map_values(|r: Room| (r.id@, strings_view(r.devices@))),
        }
    }
}

proof fn lemma_index_unique(rooms: Seq<RoomModel>, id: Seq<char>, k: int)
    requires
        unique_room_ids(rooms),
        0 <= k < rooms.len(),
        rooms[k].0 == id,
    ensures
        has_room(rooms, id),
        room_index(rooms, id) == k,
        room_devices(rooms, id) == Some(rooms[k].1),
{
}

/// After a room is added, it holds the given devices, every other room keeps
/// its devices, and the room ids stay unique.
pub proof fn lemma_insert_room(rooms: Seq<RoomModel>, id: Seq<char>, devices: Seq<Seq<char>>)
    requires
        unique_room_ids(rooms),
    ensures
        unique_room_ids(insert_room(rooms, id, devices)),
        room_devices(insert_room(rooms, id, devices), id) == Some(devices),
        forall|other: Seq<char>|
            other != id ==> room_devices(insert_room(rooms, id, devices), other) == room_devices(
                rooms,
                other,
            ),
{
    let after = insert_room(rooms, id, devices);
    if has_room(rooms, id) {
        let k = room_index(rooms, id);
        assert forall|i: int, j: int|
            0 <= i < after.len() && 0 <= j < after.len() && i != j implies after[i].0
            != after[j].0 by {
            assert(after[i].0 == rooms[i].0);
            assert(after[j].0 == rooms[j].0);
        }
        lemma_index_unique(after, id, k);
        assert forall|other: Seq<char>| other != id implies room_devices(after, other)
            == room_devices(rooms, other) by {
            if has_room(rooms, other) {
                let c = room_index(rooms, other);
                assert(after[c] == rooms[c]);
                lemma_index_unique(after, other, c);
            }
            if has_room(after, other) {
                let c = room_index(after, other);
                assert(after[c] == rooms[c]);
                lemma_index_unique(rooms, other, c);
            }
        }
    } else {
        let n = rooms.len() as int;
        assert forall|i: int, j: int|
            0 <= i < after.len() && 0 <= j < after.len() && i != j implies after[i].0
            != after[j].0 by {
            if i < n && j < n {
                assert(after[i] == rooms[i] && after[j] == rooms[j]);
            } else if i < n {
                assert(after[i] == rooms[i]);
            } else {
                assert(after[j] == rooms[j]);
            }
        }
        lemma_index_unique(after, id, n);
        assert forall|other: Seq<char>| other != id implies room_devices(after, other)
            == room_devices(rooms, other) by {
            if has_room(rooms, other) {
                let c = room_index(rooms, other);
                assert(after[c] == rooms[c]);
                lemma_index_unique(after, other, c);
            }
            if has_room(after, other) {
                let c = room_index(after, other);
                assert(c != n);
                assert(after[c] == rooms[c]);
                lemma_index_unique(rooms, other, c);
            }
        }
    }
}

impl SmartHome {
    /// The home's rooms are well formed: room ids are unique.
    pub open spec fn wf(&self) -> bool {
        unique_room_ids(self@.rooms)
    }

    /// An empty home with the given id.
    pub fn new(id: &str) -> (r: SmartHome)
        ensures
            r.wf(),
            r@.id == id@,
            r@.rooms == Seq::<RoomModel>::empty(),
    {
        let r = SmartHome { id: String::from_str(id), rooms: Vec::new() };
        assert(r@.rooms =~= Seq::<RoomModel>::empty());
        r
    }

    fn find_room(&self, id: &str) -> (r: Option<usize>)
        requires
            self.wf(),
        ensures
            match r {
                Some(i) => i < self@.rooms.len() && self@.rooms[i as int].0 == id@ && room_index(
                    self@.rooms,
                    id@,
                ) == i && room_devices(self@.rooms, id@) == Some(self@.rooms[i as int].1),
                None => !has_room(self@.rooms, id@) && room_devices(self@.rooms, id@) == None::<
                    Seq<Seq<char>>,
                >,
            },
    {
        let mut i: usize = 0;
        while i < self.rooms.len()
            invariant
                i <= self.rooms@.len(),
                self.wf(),
                forall|k: int| 0 <= k < i ==> self@.rooms[k].0 != id@,
            decreases self.rooms@.len() - i,
        {
            if str_eq(self.rooms[i].id.as_str(), id) {
                proof {
                    lemma_index_unique(self@.rooms, id@, i as int);
                }
                return Some(i);
            }
            i = i + 1;
        }
        None
    }

    /// Adds a room with the given device ids; a room with the same id is
    /// replaced.
    pub fn with_room(self, room_id: &str, device_ids: &[&str]) -> (r: SmartHome)
        requires
            self.wf(),
        ensures
            r.wf(),
            r@.id == self@.id,
            r@.rooms == insert_room(self@.rooms, room_id@, strs_view(device_ids@)),
            room_devices(r@.rooms, room_id@) == Some(strs_view(device_ids@)),
            forall|other: Seq<char>|
                other != room_id@ ==> room_devices(r@.rooms, other) == room_devices(
                    self@.rooms,
                    other,
                ),
    {
        proof {
            lemma_insert_room(self@.rooms, room_id@, strs_view(device_ids@));
        }
        let mut home = self;
        home.add_room(room_id, device_ids);
        home
    }

    /// Adds a room with the given device ids. A room with the same id is
    /// replaced in place, and its device ids are returned.
    pub fn add_room(&mut self, room_id: &str, device_ids: &[&str]) -> (r: Option<Vec<String>>)
        requires
            old(self).wf(),
        ensures
            final(self).wf(),
            final(self)@.id == old(self)@.id,
            final(self)@.rooms == insert_room(old(self)@.rooms, room_id@, strs_view(device_ids@)),
            room_devices(final(self)@.rooms, room_id@) == Some(strs_view(device_ids@)),
            forall|other: Seq<char>|
                other != room_id@ ==> room_devices(final(self)@.rooms, other) == room_devices(
                    old(self)@.rooms,
                    other,
                ),
            match r {
                None => room_devices(old(self)@.rooms, room_id@) == None::<Seq<Seq<char>>>,
                Some(v) => room_devices(old(self)@.rooms, room_id@) == Some(strings_view(v@)),
            },
    {
        proof {
            lemma_insert_room(self@.rooms, room_id@, strs_view(device_ids@));
        }
        let mut devices: Vec<String> = Vec::new();
        let mut i: usize = 0;
        while i < device_ids.len()
            invariant
                i <= device_ids@.len(),
                devices@.len() == i,
                forall|j: int| 0 <= j < i ==> #[trigger] devices@[j]@ == device_ids@[j]@,
            decreases device_ids@.len() - i,
        {
            devices.push(String::from_str(device_ids[i]));
            i = i + 1;
        }
        assert(strings_view(devices@) =~= strs_view(device_ids@));
        let ghost old_rooms = self@.rooms;
        let room = Room { id: String::from_str(room_id), devices };
        match self.find_room(room_id) {
            Some(k) => {
                let previous = self.rooms.remove(k);
                self.rooms.insert(k, room);
                assert(self@.rooms =~= old_rooms.update(k as int, (room_id@, strs_view(device_ids@))));
                Some(previous.devices)
            },
            None => {
                self.rooms.push(room);
                assert(self@.rooms =~= old_rooms.push((room_id@, strs_view(device_ids@))));
                None
            },
        }
    }

    /// Removes the room with the given id and returns its device ids; `None`,
    /// and no change, where there is no such room.
    pub fn remove_room(&mut self, room_id: &str) -> (r: Option<Vec<String>>)
        requires
            old(self).wf(),
        ensures
            final(self).wf(),
            final(self)@.id == old(self)@.id,
            match r {
                None => room_devices(old(self)@.rooms, room_id@) == None::<Seq<Seq<char>>>
                    && final(self)@.rooms == old(self)@.rooms,
                Some(v) => room_devices(old(self)@.rooms, room_id@) == Some(strings_view(v@))
                    && final(self)@.rooms == old(self)@.rooms.remove(
                    room_index(old(self)@.rooms, room_id@),
                ),
            },
    {
        let ghost old_rooms = self@.rooms;
        match self.find_room(room_id) {
            Some(k) => {
                let previous = self.rooms.remove(k);
                assert(self@.rooms =~= old_rooms.remove(k as int));
                assert(unique_room_ids(self@.rooms)) by {
                    assert forall|i: int, j: int|
                        0 <= i < self@.rooms.len() && 0 <= j < self@.rooms.len() && i != j
                        implies self@.rooms[i].0 != self@.rooms[j].0 by {
                        let oi = if i < k { i } else { i + 1 };
                        let oj = if j < k { j } else { j + 1 };
                        assert(self@.rooms[i] == old_rooms[oi]);
                        assert(self@.rooms[j] == old_rooms[oj]);
                    }
                }
                Some(previous.devices)
            },
            None => None,
        }
    }

    /// The ids of the rooms, or `None` for a home without rooms.
    pub fn get_rooms(&self) -> (r: Option<Vec<&String>>)
        ensures
            match r {
                None => self@.rooms.len() == 0,
                Some(v) => self@.rooms.len() > 0 && v@.map_values(|s: &String| s@) == room_ids(
                    self@.rooms,
                ) && (self.wf() ==> forall|i: int, j: int|
                    0 <= i < v@.len() && 0 <= j < v@.len() && i != j ==> v@[i]@ != v@[j]@),
            },
    {
        if self.rooms.len() == 0 {
            return None;
        }
        let mut ids: Vec<&String> = Vec::new();
        let mut i: usize = 0;
        while i < self.rooms.len()
            invariant
                i <= self.rooms@.len(),
                ids@.len() == i,
                forall|j: int| 0 <= j < i ==> #[trigger] ids@[j]@ == self@.rooms[j].0,
            decreases self.rooms@.len() - i,
        {
            ids.push(&self.rooms[i].id);
            i = i + 1;
        }
        assert(ids@.map_values(|s: &String| s@) =~= room_ids(self@.rooms));
        Some(ids)
    }

    /// The device ids of a room, or `None` where the home has no such room.
    pub fn devices(&self, room: &str) -> (r: Option<&Vec<String>>)
        requires
            self.wf(),
        ensures
            match r {
                None => room_devices(self@.rooms, room@) == None::<Seq<Seq<char>>>,
                Some(v) => room_devices(self@.rooms, room@) == Some(strings_view(v@)),
            },
    {
        match self.find_room(room) {
            Some(i) => Some(&self.rooms[i].devices),
            None => None,
        }
    }

    /// Resolves an address to a device of a room: a missing room yields
    /// `NoDeviceError` with the room id, a missing device of an existing room
    /// `NoDeviceError` with the device id.
    pub fn resolve(&self, room: &str, device: &str) -> (r: Result<(), ProviderError>)
        requires
            self.wf(),
        ensures
            match unresolved(self@.rooms, room@, device@) {
                None => r is Ok,
                Some(id) => is_no_device(r, id),
            },
    {
        match self.devices(room) {
            None => Err(ProviderError::NoDeviceError(String::from_str(room))),
            Some(devices) => {
                let mut i: usize = 0;
                while i < devices.len()
                    invariant
                        i <= devices@.len(),
                        room_devices(self@.rooms, room@) == Some(strings_view(devices@)),
                        forall|k: int| 0 <= k < i ==> devices@[k]@ != device@,
                    decreases devices@.len() - i,
                {
                    if str_eq(devices[i].as_str(), device) {
                        assert(strings_view(devices@)[i as int] == device@);
                        assert(strings_view(devices@).contains(device@));
                        return Ok(());
                    }
                    i = i + 1;
                }
                assert(!strings_view(devices@).contains(device@));
                Err(ProviderError::NoDeviceError(String::from_str(device)))
            },
        }
    }
}

/// The segments of `s` between `/` separators, as `str::split` gives them:
/// one more than the number of separators.
pub open spec fn segments(s: Seq<char>) -> Seq<Seq<char>>
    decreases s.len(),
{
    if s.len() == 0 {
        seq![Seq::<char>::empty()]
    } else {
        let prev = segments(s.drop_last());
        if s.last() == '/' {
            prev.push(Seq::<char>::empty())
        } else {
            prev.update(prev.len() - 1, prev.last().push(s.last()))
        }
    }
}

proof fn lemma_segments_nonempty(s: Seq<char>)
    ensures
        segments(s).len() >= 1,
    decreases s.len(),
{
    if s.len() > 0 {
        lemma_segments_nonempty(s.drop_last());
    }
}

/// Splits `q` at each `/`.
pub fn split_segments(q: &str) -> (r: Vec<String>)
    ensures
        strings_view(r@) == segments(q@),
{
    let n = q.unicode_len();
    let mut parts: Vec<String> = Vec::new();
    let mut start: usize = 0;
    let mut i: usize = 0;
    assert(q@.subrange(0, 0) =~= Seq::<char>::empty());
    assert(strings_view(parts@).push(q@.subrange(0, 0)) =~= segments(q@.subrange(0, 0)));
    while i < n
        invariant
            n == q@.len(),
            start <= i <= n,
            strings_view(parts@).push(q@.subrange(start as int, i as int)) == segments(
                q@.subrange(0, i as int),
            ),
        decreases n - i,
    {
        let c = q.get_char(i);
        let ghost prefix = q@.subrange(0, i + 1);
        assert(prefix.drop_last() =~= q@.subrange(0, i as int));
        proof {
            lemma_segments_nonempty(prefix.drop_last());
        }
        if c == '/' {
            let ghost before = strings_view(parts@);
            parts.push(String::from_str(q.substring_char(start, i)));
            assert(strings_view(parts@) =~= before.push(q@.subrange(start as int, i as int)));
            start = i + 1;
            assert(q@.subrange(start as int, i + 1) =~= Seq::<char>::empty());
        } else {
            assert(q@.subrange(start as int, i + 1) =~= q@.subrange(start as int, i as int).push(c));
            assert(strings_view(parts@).push(q@.subrange(start as int, i + 1)) =~= segments(
                q@.subrange(0, i as int),
            ).update(
                segments(q@.subrange(0, i as int)).len() - 1,
                segments(q@.subrange(0, i as int)).last().push(c),
            ));
        }
        i = i + 1;
    }
    let ghost before = strings_view(parts@);
    parts.push(String::from_str(q.substring_char(start, n)));
    assert(strings_view(parts@) =~= before.push(q@.subrange(start as int, n as int)));
    assert(q@.subrange(0, n as int) =~= q@);
    parts
}

/// The parts of an address: room, device, and the command where there is one.
/// `None` where the address has neither two nor three segments.
pub open spec fn query_parts(q: Seq<char>) -> Option<(Seq<char>, Seq<char>, Option<Seq<char>>)> {
    let segs = segments(q);
    if segs.len() == 2 {
        Some((segs[0], segs[1], None))
    } else if segs.len() == 3 {
        Some((segs[0], segs[1], Some(segs[2])))
    } else {
        None
    }
}

/// An address parsed into its parts.
#[derive(Debug)]
pub struct Query {
    pub room: String,
    pub device: String,
    pub command: Option<String>,
}

/// `r` is a `QueryFormatError` that carries `q`.
pub open spec fn is_format_error<T>(r: Result<T, HomeError>, q: Seq<char>) -> bool {
    match r {
        Err(HomeError::QueryFormatError(s)) => s@ == q,
        _ => false,
    }
}

/// `r` is a `NoDeviceError` that carries `id`, nested in a dispatcher error.
pub open spec fn is_home_no_device<T>(r: Result<T, HomeError>, id: Seq<char>) -> bool {
    match r {
        Err(HomeError::ProviderError(ProviderError::NoDeviceError(s))) => s@ == id,
        _ => false,
    }
}

/// Parses an address `<room>/<device>/<command>`, or `<room>/<device>` for a
/// status read; any other number of segments is a `QueryFormatError` that
/// carries the address.
pub fn parse_query(q: &str) -> (r: Result<Query, HomeError>)
    ensures
        match query_parts(q@) {
            None => is_format_error(r, q@),
            Some((room, device, command)) => match r {
                Ok(query) => query.room@ == room && query.device@ == device && match command {
                    None => query.command is None,
                    Some(c) => query.command is Some && query.command->0@ == c,
                },
                Err(_) => false,
            },
        },
{
    let parts = split_segments(q);
    if parts.len() == 2 || parts.len() == 3 {
        let room = parts[0].clone();
        let device = parts[1].clone();
        let command = if parts.len() == 3 {
            Some(parts[2].clone())
        } else {
            None
        };
        Ok(Query { room, device, command })
    } else {
        Err(HomeError::QueryFormatError(String::from_str(q)))
    }
}

/// The text that a dispatch outcome renders to: the response or the error,
/// and a newline.
pub open spec fn outcome_line(o: Result<String, HomeError>) -> Seq<char> {
    match o {
        Ok(s) => s@ + "\n"@,
        Err(e) => home_error_text(e) + "\n"@,
    }
}

/// Renders a dispatch outcome as one line of text.
pub fn render_outcome(o: &Result<String, HomeError>) -> (r: String)
    ensures
        r@ == outcome_line(*o),
{
    let mut r = match o {
        Ok(s) => s.clone(),
        Err(e) => e.message(),
    };
    r.append("\n");
    r
}

/// Where a resolved address leads: a command for a device, or a status read.
#[derive(Debug)]
pub enum Route {
    Execute { device: String, command: String },
    Status { device: String },
}

/// `r` is the route that the address parts lead to on these rooms: the
/// format error, the `NoDeviceError` with the unresolved id, or the command or
/// status read for the device.
pub open spec fn route_is(
    r: Result<Route, HomeError>,
    rooms: Seq<RoomModel>,
    q: Seq<char>,
) -> bool {
    match query_parts(q) {
        None => is_format_error(r, q),
        Some((room, device, command)) => match unresolved(rooms, room, device) {
            Some(id) => is_home_no_device(r, id),
            None => match command {
                Some(c) => r matches Ok(Route::Execute { device: d, command: k }) && d@ == device
                    && k@ == c,
                None => r matches Ok(Route::Status { device: d }) && d@ == device,
            },
        },
    }
}

impl SmartHome {
    /// Parses and resolves the address `query`: `<room>/<device>/<command>`
    /// routes the command to the device, `<room>/<device>` a status read.
    pub fn route(&self, query: &str) -> (r: Result<Route, HomeError>)
        requires
            self.wf(),
        ensures
            route_is(r, self@.rooms, query@),
    {
        let q = match parse_query(query) {
            Ok(q) => q,
            Err(e) => {
                return Err(e);
            },
        };
        match self.resolve(q.room.as_str(), q.device.as_str()) {
            Err(e) => {
                return Err(HomeError::ProviderError(e));
            },
            Ok(()) => {},
        }
        match q.command {
            Some(command) => Ok(Route::Execute { device: q.device, command }),
            None => Ok(Route::Status { device: q.device }),
        }
    }

    /// Routes the address `query` and makes the one provider call it leads to:
    /// `execute(device, command)` for a command, `status(device)` for a status
    /// read. A malformed address, or one that does not resolve, fails without
    /// calling the provider.
    pub fn dispatch<T: InfoDeviceProvider + QueryableDeviceProvider>(
        &self,
        provider: &mut T,
        query: &str,
    ) -> (r: Result<String, HomeError>)
        requires
            self.wf(),
        ensures
            match query_parts(query@) {
                None => is_format_error(r, query@) && *final(provider) == *old(provider),
                Some((room, device, _)) => match unresolved(self@.rooms, room, device) {
                    Some(id) => is_home_no_device(r, id) && *final(provider) == *old(provider),
                    None => r is Ok || r matches Err(HomeError::ProviderError(_)),
                },
            },
    {
        let route = match self.route(query) {
            Ok(route) => route,
            Err(e) => {
                return Err(e);
            },
        };
        let outcome = match route {
            Route::Execute { device, command } => provider.execute(
                device.as_str(),
                command.as_str(),
            ),
            Route::Status { device } => provider.status(device.as_str()),
        };
        match outcome {
            Ok(s) => Ok(s),
            Err(e) => Err(HomeError::ProviderError(e)),
        }
    }

    /// Runs the command of `command_query`, which must be
    /// `<room>/<device>/<command>`: any other number of segments is a
    /// `QueryFormatError`. The outcome, response or error, is rendered as one
    /// line of text. A malformed address, or one that does not resolve, fails
    /// without calling the provider.
    pub fn run_device_command<T: InfoDeviceProvider + QueryableDeviceProvider>(
        &self,
        provider: &mut T,
        command_query: &str,
    ) -> (r: String)
        requires
            self.wf(),
        ensures
            segments(command_query@).len() != 3 ==> r@ == format_error_text(command_query@)
                + "\n"@ && *final(provider) == *old(provider),
            segments(command_query@).len() == 3 ==> match unresolved(
                self@.rooms,
                segments(command_query@)[0],
                segments(command_query@)[1],
            ) {
                Some(id) => r@ == no_device_text(id) + "\n"@ && *final(provider) == *old(provider),
                None => exists|o: Result<String, HomeError>|
                    (o is Ok || o matches Err(HomeError::ProviderError(_))) && r@ == outcome_line(
                        o,
                    ),
            },
    {
        let parts = split_segments(command_query);
        let outcome = if parts.len() != 3 {
            Err(HomeError::QueryFormatError(String::from_str(command_query)))
        } else {
            self.dispatch(provider, command_query)
        };
        let r = render_outcome(&outcome);
        assert(r@ == outcome_line(outcome));
        r
    }
}

/// Every `(room, device)` address of the home, room by room, each room's
/// devices in order.
pub open spec fn device_pairs(rooms: Seq<RoomModel>) -> Seq<(Seq<char>, Seq<char>)>
    decreases rooms.len(),
{
    if rooms.len() == 0 {
        Seq::empty()
    } else {
        device_pairs(rooms.drop_last()) + rooms.last().1.map_values(
            |d: Seq<char>| (rooms.last().0, d),
        )
    }
}

/// The report line of one device.
pub open spec fn status_line(room: Seq<char>, device: Seq<char>, text: Seq<char>) -> Seq<char> {
    "[ROOM '"@ + room + "'] [DEVICE '"@ + device + "'] [STATUS] "@ + text + "\n"@
}

/// The text that a provider's answer renders to: the status or the error.
pub open spec fn outcome_text(o: Result<String, ProviderError>) -> Seq<char> {
    match o {
        Ok(s) => s@,
        Err(e) => provider_error_text(e),
    }
}

/// One report line per address, with the text given for it.
pub open spec fn report_lines(pairs: Seq<(Seq<char>, Seq<char>)>, texts: Seq<Seq<char>>) -> Seq<
    Seq<char>,
> {
    Seq::new(pairs.len(), |k: int| status_line(pairs[k].0, pairs[k].1, texts[k]))
}

/// The lines joined in order.
pub open spec fn concat(lines: Seq<Seq<char>>) -> Seq<char>
    decreases lines.len(),
{
    if lines.len() == 0 {
        Seq::empty()
    } else {
        concat(lines.drop_last()) + lines.last()
    }
}

/// The first line of a report.
pub open spec fn report_header(id: Seq<char>, stamp: Seq<char>) -> Seq<char> {
    "[SmartHome: "@ + id + "] status on "@ + stamp + ": \n"@
}

/// The report on a home at time `stamp`, given the provider's answer for each
/// address in order.
pub open spec fn report_text(
    home: HomeModel,
    stamp: Seq<char>,
    outcomes: Seq<Result<String, ProviderError>>,
) -> Seq<char> {
    report_header(home.id, stamp) + concat(
        report_lines(device_pairs(home.rooms), outcomes.map_values(|o| outcome_text(o))),
    )
}

proof fn lemma_pairs_step(rooms: Seq<RoomModel>, i: int)
    requires
        0 <= i < rooms.len(),
    ensures
        device_pairs(rooms.subrange(0, i + 1)) == device_pairs(rooms.subrange(0, i))
            + rooms[i].1.map_values(|d: Seq<char>| (rooms[i].0, d)),
{
    assert(rooms.subrange(0, i + 1).drop_last() =~= rooms.subrange(0, i));
}

/// Where a room has `m` devices, the room contributes `m` addresses.
proof fn lemma_pairs_len(rooms: Seq<RoomModel>, m: nat)
    requires
        forall|i: int| 0 <= i < rooms.len() ==> #[trigger] rooms[i].1.len() == m,
    ensures
        device_pairs(rooms).len() == rooms.len() * m,
    decreases rooms.len(),
{
    if rooms.len() > 0 {
        lemma_pairs_len(rooms.drop_last(), m);
        assert(rooms.last().1.len() == m);
        assert((rooms.len() - 1) * m + m == rooms.len() * m) by (nonlinear_arith);
    }
}

spec fn pair_view(p: (&String, &String)) -> (Seq<char>, Seq<char>) {
    (p.0@, p.1@)
}

impl SmartHome {
    fn addresses(&self) -> (r: Vec<(&String, &String)>)
        ensures
            r@.map_values(|p: (&String, &String)| pair_view(p)) == device_pairs(self@.rooms),
    {
        let ghost rooms = self@.rooms;
        let mut r: Vec<(&String, &String)> = Vec::new();
        let mut i: usize = 0;
        assert(rooms.subrange(0, 0) =~= Seq::<RoomModel>::empty());
        while i < self.rooms.len()
            invariant
                rooms == self@.rooms,
                i <= rooms.len(),
                r@.map_values(|p: (&String, &String)| pair_view(p)) == device_pairs(
                    rooms.subrange(0, i as int),
                ),
            decreases rooms.len() - i,
        {
            let room = &self.rooms[i];
            let ghost base = r@.map_values(|p: (&String, &String)| pair_view(p));
            let ghost start = r@.len();
            let mut j: usize = 0;
            while j < room.devices.len()
                invariant
                    rooms == self@.rooms,
                    i < rooms.len(),
                    *room == self.rooms@[i as int],
                    j <= room.devices@.len(),
                    r@.len() == start + j,
                    start == base.len(),
                    forall|k: int| 0 <= k < start ==> pair_view(#[trigger] r@[k]) == base[k],
                    forall|k: int|
                        0 <= k < j ==> pair_view(#[trigger] r@[start + k]) == (
                            rooms[i as int].0,
                            rooms[i as int].1[k],
                        ),
                decreases room.devices@.len() - j,
            {
                r.push((&room.id, &room.devices[j]));
                j = j + 1;
            }
            proof {
                lemma_pairs_step(rooms, i as int);
                assert(rooms[i as int].1.len() == room.devices@.len());
                let ext = rooms[i as int].1.map_values(|d: Seq<char>| (rooms[i as int].0, d));
                assert(device_pairs(rooms.subrange(0, i + 1)) == base + ext);
                assert forall|k: int| 0 <= k < r@.len() implies pair_view(r@[k]) == (base
                    + ext)[k] by {
                    if k >= start {
                        assert(pair_view(r@[start + (k - start)]) == (
                            rooms[i as int].0,
                            rooms[i as int].1[k - start],
                        ));
                    }
                }
                assert(r@.map_values(|p: (&String, &String)| pair_view(p)) =~= device_pairs(
                    rooms.subrange(0, i + 1),
                ));
            }
            i = i + 1;
        }
        assert(rooms.subrange(0, rooms.len() as int) =~= rooms);
        r
    }

    /// Asks the provider for the status of every device, address by address.
    pub fn collect_statuses<T: InfoDeviceProvider>(&self, provider: &T) -> (r: Vec<
        Result<String, ProviderError>,
    >)
        ensures
            r@.len() == device_pairs(self@.rooms).len(),
    {
        let addresses = self.addresses();
        let mut r: Vec<Result<String, ProviderError>> = Vec::new();
        let mut k: usize = 0;
        while k < addresses.len()
            invariant
                k <= addresses@.len(),
                r@.len() == k,
            decreases addresses@.len() - k,
        {
            r.push(provider.status(addresses[k].1.as_str()));
            k = k + 1;
        }
        r
    }

    /// Renders the report at time `stamp`, given the provider's answer for each
    /// address in the order of `collect_statuses`: a header, then one line per
    /// device, with the status or the error inline.
    pub fn render_report(&self, stamp: &str, outcomes: &Vec<Result<String, ProviderError>>) -> (r:
        String)
        requires
            outcomes@.len() == device_pairs(self@.rooms).len(),
        ensures
            r@ == report_text(self@, stamp@, outcomes@),
    {
        let addresses = self.addresses();
        let ghost pairs = device_pairs(self@.rooms);
        let ghost texts = outcomes@.map_values(|o| outcome_text(o));
        let ghost lines = report_lines(pairs, texts);
        let mut r = String::from_str("[SmartHome: ");
        r.append(self.id.as_str());
        r.append("] status on ");
        r.append(stamp);
        r.append(": \n");
        let mut k: usize = 0;
        assert(lines.subrange(0, 0) =~= Seq::<Seq<char>>::empty());
        while k < addresses.len()
            invariant
                addresses@.map_values(|p: (&String, &String)| pair_view(p)) == pairs,
                pairs == device_pairs(self@.rooms),
                outcomes@.len() == pairs.len(),
                texts == outcomes@.map_values(|o| outcome_text(o)),
                lines == report_lines(pairs, texts),
                k <= pairs.len(),
                r@ == report_header(self@.id, stamp@) + concat(lines.subrange(0, k as int)),
            decreases pairs.len() - k,
        {
            let (room, device) = addresses[k];
            assert((room@, device@) == pairs[k as int]);
            r.append("[ROOM '");
            r.append(room.as_str());
            r.append("'] [DEVICE '");
            r.append(device.as_str());
            r.append("'] [STATUS] ");
            match &outcomes[k] {
                Ok(s) => r.append(s.as_str()),
                Err(e) => {
                    let text = e.message();
                    r.append(text.as_str());
                },
            }
            r.append("\n");
            assert(lines.subrange(0, k + 1).drop_last() =~= lines.subrange(0, k as int));
            k = k + 1;
        }
        assert(lines.subrange(0, pairs.len() as int) =~= lines);
        r
    }

    /// The report on the home at the current time: one line per device of
    /// every room, with the provider's status or error inline; a failing device
    /// does not stop the report.
    pub fn create_report<T: InfoDeviceProvider>(&self, provider: &T) -> (r: String)
        ensures
            exists|stamp: Seq<char>, outcomes: Seq<Result<String, ProviderError>>|
                outcomes.len() == device_pairs(self@.rooms).len() && r@ == report_text(
                    self@,
                    stamp,
                    outcomes,
                ),
    {
        let stamp = utc_now_text("%Y-%m-%d %H:%M:%S");
        let outcomes = self.collect_statuses(provider);
        let r = self.render_report(stamp.as_str(), &outcomes);
        assert(outcomes@.len() == device_pairs(self@.rooms).len() && r@ == report_text(
            self@,
            stamp@,
            outcomes@,
        ));
        r
    }
}

/// Relies on `chrono::Utc::now` and `DateTime::format`: the current UTC time,
/// written with the strftime pattern `pattern`. Nothing is known of the time.
/// Only the date-and-time pattern is admitted: chrono fails to render a
/// pattern with an invalid specifier.
#[verifier::external_body]
fn utc_now_text(pattern: &str) -> String
    requires
        pattern@ == "%Y-%m-%d %H:%M:%S"@,
{
    chrono::Utc::now().format(pattern).to_string()
}

/// A report on a home of `n` rooms with `m` devices each has one line per
/// device, `n * m` in all, whatever each device answered.
pub proof fn lemma_report_line_count(
    home: HomeModel,
    n: nat,
    m: nat,
    stamp: Seq<char>,
    outcomes: Seq<Result<String, ProviderError>>,
)
    requires
        home.rooms.len() == n,
        forall|i: int| 0 <= i < home.rooms.len() ==> #[trigger] home.rooms[i].1.len() == m,
        outcomes.len() == device_pairs(home.rooms).len(),
    ensures
        outcomes.len() == n * m,
        report_text(home, stamp, outcomes) == report_header(home.id, stamp) + concat(
            report_lines(device_pairs(home.rooms), outcomes.map_values(|o| outcome_text(o))),
        ),
        report_lines(device_pairs(home.rooms), outcomes.map_values(|o| outcome_text(o))).len()
            == n * m,
{
    lemma_pairs_len(home.rooms, m);
}

} // verus!

//! What a participant knows of a room, and how messages change it.

use vstd::prelude::*;
use egui_extras::RetainedImage;
use crate::connection::{Identity, LoopbackConnection};
use crate::dict::{
    distinct_keys, has_key, index_of, lemma_index_of, lemma_put, put, value_of, without, Dict,
};
use crate::error::DraduError;
use crate::fs::AssetDirHandler;
use crate::json::{Json, JsonView, Number};
use crate::message::{BodyView, Message, MessageView, MsgBody, MsgType};
use crate::state::map_state::{texts, MapObject, MapState, MapView, Outcome};
use crate::text::{from_chars, to_chars, trim, trim_range};
use crate::utils::{
    color32_from_json_value, color_of_json, get_placeholder_image, is_object_id, random_id, Color,
};

verus! {

/// One line of the chat log.
#[derive(Debug)]
pub struct ChatMessage {
    pub sender_id: String,
    pub text: String,
}

/// What the owner of a room state is asked to do for it.
pub enum Action {
    /// Send this message to the room.
    Send(Message),
    /// Read this picture from the asset directory and add it to the cache.
    LoadAsset(String),
    /// Read this file from the asset directory and send it to the room.
    ServeFile(String),
}

/// The mathematical value of an [`Action`].
pub enum ActionView {
    Send(MessageView),
    LoadAsset(Seq<char>),
    ServeFile(Seq<char>),
}

impl View for Action {
    type V = ActionView;

    open spec fn view(&self) -> ActionView {
        match self {
            Action::Send(m) => ActionView::Send(m@),
            Action::LoadAsset(path) => ActionView::LoadAsset(path@),
            Action::ServeFile(path) => ActionView::ServeFile(path@),
        }
    }
}

/// The views of actions.
pub open spec fn action_views(v: Seq<Action>) -> Seq<ActionView> {
    v.map_values(|a: Action| a@)
}

/// The players by id: nickname and color.
pub type PlayersView = Seq<(Seq<char>, (Seq<char>, Color))>;

/// Entries of players, seen as their mathematical values.
pub open spec fn player_entries(s: Seq<(Seq<char>, (String, Color))>) -> PlayersView {
    s.map_values(|e: (Seq<char>, (String, Color))| (e.0, (e.1.0@, e.1.1)))
}

/// Seeing players as their values keeps the keys, and commutes with storing and removing.
pub proof fn lemma_player_entries(s: Seq<(Seq<char>, (String, Color))>, k: Seq<char>)
    requires
        distinct_keys(s),
    ensures
        distinct_keys(player_entries(s)),
        has_key(s, k) <==> has_key(player_entries(s), k),
        has_key(s, k) ==> index_of(player_entries(s), k) == index_of(s, k) && value_of(
            player_entries(s),
            k,
        ) == Some((value_of(s, k).unwrap().0@, value_of(s, k).unwrap().1)),
        player_entries(without(s, k)) == without(player_entries(s), k),
        forall|v: (String, Color)| #[trigger]
            player_entries(put(s, k, v)) == put(player_entries(s), k, (v.0@, v.1)),
{
    let t = player_entries(s);
    assert forall|i: int| 0 <= i < s.len() implies (#[trigger] t[i]).0 == s[i].0 by {}
    assert forall|i: int, j: int| 0 <= i < j < t.len() implies (#[trigger] t[i]).0 != (
    #[trigger] t[j]).0 by {
        assert(s[i].0 != s[j].0);
    }
    if has_key(s, k) {
        let i = index_of(s, k);
        assert(t[i].0 == k);
        lemma_index_of(t, k, i);
    }
    if has_key(t, k) {
        let i = index_of(t, k);
        assert(s[i].0 == k);
    }
    assert(player_entries(without(s, k)) =~= without(t, k));
    assert forall|v: (String, Color)| #[trigger]
        player_entries(put(s, k, v)) == put(t, k, (v.0@, v.1)) by {
        assert(player_entries(put(s, k, v)) =~= put(t, k, (v.0@, v.1)));
    }
}

/// What one entry of a players delta does. An empty value removes the
/// player. For a known player the nickname and the color that the entry
/// names are taken over; a color that is none is a protocol error, after the
/// nickname was taken over. An unknown player is added if the entry names
/// both a nickname and a color, and is a protocol error otherwise.
pub open spec fn player_step(players: PlayersView, key: Seq<char>, value: JsonView) -> (
    PlayersView,
    Outcome,
) {
    let name = value.field("nickname"@).as_str();
    let color = color_of_json(value.field("color"@));
    if value.is_empty() {
        (without(players, key), Outcome::Done)
    } else if has_key(players, key) {
        let old = value_of(players, key).unwrap();
        let nickname = match name {
            Some(n) => n,
            None => old.0,
        };
        if !value.has_key("color"@) {
            (put(players, key, (nickname, old.1)), Outcome::Done)
        } else if color is Some {
            (put(players, key, (nickname, color.unwrap())), Outcome::Done)
        } else {
            (put(players, key, (nickname, old.1)), Outcome::Failed(DraduError::ProtocolError))
        }
    } else if name is Some && color is Some {
        (players.push((key, (name.unwrap(), color.unwrap()))), Outcome::Done)
    } else {
        (players, Outcome::Failed(DraduError::ProtocolError))
    }
}

/// What the entries of a players delta do, one after the other, up to the
/// first that is malformed.
pub open spec fn players_after(players: PlayersView, entries: Seq<(Seq<char>, JsonView)>) -> (
    PlayersView,
    Outcome,
)
    decreases entries.len(),
{
    if entries.len() == 0 {
        (players, Outcome::Done)
    } else {
        let before = players_after(players, entries.drop_last());
        if before.1 is Done {
            player_step(before.0, entries.last().0, entries.last().1)
        } else {
            before
        }
    }
}

/// Once an entry has not ended well, the entries behind it change nothing.
pub proof fn lemma_players_after_stops(
    players: PlayersView,
    entries: Seq<(Seq<char>, JsonView)>,
    k: int,
)
    requires
        0 <= k <= entries.len(),
        !(players_after(players, entries.subrange(0, k)).1 is Done),
    ensures
        players_after(players, entries) == players_after(players, entries.subrange(0, k)),
    decreases entries.len() - k,
{
    if k < entries.len() {
        let next = entries.subrange(0, k + 1);
        assert(next.drop_last() == entries.subrange(0, k));
        lemma_players_after_stops(players, entries, k + 1);
    } else {
        assert(entries.subrange(0, k) == entries);
    }
}

/// The text that a payload holds under `key`.
fn text_of(json: &Json, key: &str) -> (r: Option<String>)
    ensures
        match r {
            Some(s) => json@.field(key@).as_str() == Some(s@),
            None => json@.field(key@).as_str() is None,
        },
{
    match json.get(key) {
        Some(value) => match value.as_str() {
            Some(s) => Some(s.clone()),
            None => None,
        },
        None => None,
    }
}

/// The color that a payload holds under `color`.
fn color_of(json: &Json) -> (r: Option<Color>)
    ensures
        r == color_of_json(json@.field("color"@)),
{
    match json.get("color") {
        Some(value) => match color32_from_json_value(value) {
            Ok(c) => Some(c),
            Err(_) => None,
        },
        None => {
            assert(color_of_json(JsonView::Null) is None);
            None
        },
    }
}

/// Applies one entry of a players delta.
fn apply_player(players: &mut Dict<(String, Color)>, key: &str, value: &Json) -> (r: Outcome)
    requires
        old(players).wf(),
    ensures
        final(players).wf(),
        (player_entries(final(players)@), r) == player_step(
            player_entries(old(players)@),
            key@,
            value@,
        ),
{
    let ghost before = players@;
    proof {
        lemma_player_entries(before, key@);
    }
    if value.is_empty() {
        players.remove(key);
        return Outcome::Done;
    }
    let name = text_of(value, "nickname");
    let known = match players.get(key) {
        Some(player) => Some((player.0.clone(), player.1)),
        None => None,
    };
    match known {
        Some((old_name, old_color)) => {
            let nickname = match name {
                Some(n) => n,
                None => old_name,
            };
            if !value.has_key("color") {
                players.insert(key.to_owned(), (nickname, old_color));
                Outcome::Done
            } else {
                match color_of(value) {
                    Some(c) => {
                        players.insert(key.to_owned(), (nickname, c));
                        Outcome::Done
                    },
                    None => {
                        players.insert(key.to_owned(), (nickname, old_color));
                        Outcome::Failed(DraduError::ProtocolError)
                    },
                }
            }
        },
        None => {
            match (name, color_of(value)) {
                (Some(n), Some(c)) => {
                    players.insert(key.to_owned(), (n, c));
                    assert(player_entries(players@) =~= player_entries(before).push(
                        (key@, (n@, c)),
                    ));
                    Outcome::Done
                },
                _ => Outcome::Failed(DraduError::ProtocolError),
            }
        },
    }
}

/// Applies a players delta: an object keyed by player id.
pub fn apply_players(players: &mut Dict<(String, Color)>, json: &Json) -> (r: Outcome)
    requires
        old(players).wf(),
    ensures
        final(players).wf(),
        (player_entries(final(players)@), r) == players_after(
            player_entries(old(players)@),
            json@.entries(),
        ),
{
    let n = json.entry_count();
    let ghost entries = json@.entries();
    let ghost start = player_entries(players@);
    let mut i: usize = 0;
    assert(entries.subrange(0, 0) =~= Seq::empty());
    while i < n
        invariant
            i <= n,
            n == entries.len(),
            entries == json@.entries(),
            start == player_entries(old(players)@),
            players.wf(),
            (player_entries(players@), Outcome::Done) == players_after(
                start,
                entries.subrange(0, i as int),
            ),
        decreases n - i,
    {
        proof {
            let cur = entries.subrange(0, i + 1);
            assert(cur.drop_last() == entries.subrange(0, i as int));
            assert(cur.last() == entries[i as int]);
        }
        match json.entry_at(i) {
            Some((key, value)) => {
                let ghost prev = player_entries(players@);
                let outcome = apply_player(players, key.as_str(), value);
                proof {
                    let cur = entries.subrange(0, i + 1);
                    assert(players_after(start, cur.drop_last()) == (prev, Outcome::Done));
                    assert(players_after(start, cur) == (player_entries(players@), outcome));
                }
                match outcome {
                    Outcome::Done => {},
                    _ => {
                        proof {
                            lemma_players_after_stops(start, entries, i + 1);
                        }
                        return outcome;
                    },
                }
            },
            None => {},
        }
        i += 1;
    }
    assert(entries.subrange(0, n as int) == entries);
    Outcome::Done
}

/// The key of the picture that stands in for pictures not yet loaded.
pub open spec fn placeholder_key() -> Seq<char> {
    "placeholder"@
}

/// The request for the file `path`.
pub open spec fn file_request(path: Seq<char>) -> MessageView {
    MessageView { kind: MsgType::File, props: seq![("path"@, path)], body: None }
}

/// How a picture that the cache lacks is fetched: the master reads it from
/// the asset directory, a participant asks the room for it.
pub open spec fn fetch_action(master: bool, path: Seq<char>) -> ActionView {
    if master {
        ActionView::LoadAsset(path)
    } else {
        ActionView::Send(file_request(path))
    }
}

/// The fetches for those of `paths` that the cache lacks, in order.
pub open spec fn fetches(
    master: bool,
    images: Seq<(Seq<char>, RetainedImage)>,
    paths: Seq<Seq<char>>,
) -> Seq<ActionView>
    decreases paths.len(),
{
    if paths.len() == 0 {
        Seq::empty()
    } else {
        let rest = fetches(master, images, paths.drop_last());
        if has_key(images, paths.last()) {
            rest
        } else {
            rest.push(fetch_action(master, paths.last()))
        }
    }
}

/// What a message does to the map and the players: a `Map` message with a
/// JSON body is a map delta, a `Player` message with a JSON body a players
/// delta, and nothing else touches them.
pub open spec fn scene_step(map: MapView, players: PlayersView, msg: MessageView) -> (
    MapView,
    PlayersView,
    Seq<Seq<char>>,
    Outcome,
) {
    match msg.body {
        Some(BodyView::Json(json)) => if msg.kind == MsgType::MapDelta {
            let r = map.after_delta(json);
            (r.0, players, r.1, r.2)
        } else if msg.kind == MsgType::Player {
            let r = players_after(players, json.entries());
            (map, r.0, Seq::empty(), r.1)
        } else {
            (map, players, Seq::empty(), Outcome::Done)
        },
        _ => (map, players, Seq::empty(), Outcome::Done),
    }
}

/// The mathematical value of a [`RoomState`].
pub struct RoomView {
    /// The chat log: sender and text, oldest first.
    pub chat: Seq<(Seq<char>, Seq<char>)>,
    /// Whether this participant made the room.
    pub master: bool,
    pub user_id: Seq<char>,
    pub players: PlayersView,
    /// The cache of pictures by path.
    pub images: Seq<(Seq<char>, RetainedImage)>,
    pub map: MapView,
}

impl RoomView {
    /// What one message does: the room after it, what it asks the owner to
    /// do, and how it ended.
    pub open spec fn step(self, msg: MessageView) -> (RoomView, Seq<ActionView>, Outcome) {
        let scene = scene_step(self.map, self.players, msg);
        let room = RoomView { map: scene.0, players: scene.1, ..self };
        if msg.kind == MsgType::Msg {
            match (msg.body, value_of(msg.props, "userId"@)) {
                (Some(BodyView::Text(text)), Some(sender)) => (
                    RoomView { chat: self.chat.push((sender, text)), ..room },
                    Seq::empty(),
                    Outcome::Done,
                ),
                _ => (room, Seq::empty(), Outcome::Done),
            }
        } else if msg.kind == MsgType::File {
            if self.master {
                match value_of(msg.props, "path"@) {
                    Some(path) => (room, seq![ActionView::ServeFile(path)], Outcome::Done),
                    None => (room, Seq::empty(), Outcome::Done),
                }
            } else {
                match msg.body {
                    Some(BodyView::Image(image)) => (
                        RoomView {
                            images: put(
                                self.images,
                                match value_of(msg.props, "path"@) {
                                    Some(path) => path,
                                    None => Seq::empty(),
                                },
                                image,
                            ),
                            ..room
                        },
                        Seq::empty(),
                        Outcome::Done,
                    ),
                    _ => (room, Seq::empty(), Outcome::Done),
                }
            }
        } else {
            (room, fetches(self.master, self.images, scene.2), scene.3)
        }
    }

    /// What the messages of one tick do, one after the other, up to the
    /// first that does not end well.
    pub open spec fn tick(self, msgs: Seq<MessageView>) -> (RoomView, Seq<ActionView>, Outcome)
        decreases msgs.len(),
    {
        if msgs.len() == 0 {
            (self, Seq::empty(), Outcome::Done)
        } else {
            let before = self.tick(msgs.drop_last());
            if before.2 is Done {
                let s = before.0.step(msgs.last());
                (s.0, before.1 + s.1, s.2)
            } else {
                before
            }
        }
    }
}

/// How a tick ends as far as the map and the players go.
pub open spec fn scene_tick(map: MapView, players: PlayersView, msgs: Seq<MessageView>) -> (
    MapView,
    PlayersView,
    Outcome,
)
    decreases msgs.len(),
{
    if msgs.len() == 0 {
        (map, players, Outcome::Done)
    } else {
        let before = scene_tick(map, players, msgs.drop_last());
        if before.2 is Done {
            let s = scene_step(before.0, before.1, msgs.last());
            (s.0, s.1, s.3)
        } else {
            before
        }
    }
}

/// A tick changes the map and the players, and ends, as the map and the
/// players alone decide.
pub proof fn lemma_tick_scene(room: RoomView, msgs: Seq<MessageView>)
    ensures
        scene_tick(room.map, room.players, msgs) == (
            room.tick(msgs).0.map,
            room.tick(msgs).0.players,
            room.tick(msgs).2,
        ),
    decreases msgs.len(),
{
    if msgs.len() > 0 {
        lemma_tick_scene(room, msgs.drop_last());
    }
}

/// Once a message has not ended well, the messages behind it change nothing.
pub proof fn lemma_tick_stops(room: RoomView, msgs: Seq<MessageView>, k: int)
    requires
        0 <= k <= msgs.len(),
        !(room.tick(msgs.subrange(0, k)).2 is Done),
    ensures
        room.tick(msgs) == room.tick(msgs.subrange(0, k)),
    decreases msgs.len() - k,
{
    if k < msgs.len() {
        let next = msgs.subrange(0, k + 1);
        assert(next.drop_last() == msgs.subrange(0, k));
        lemma_tick_stops(room, msgs, k + 1);
    } else {
        assert(msgs.subrange(0, k) == msgs);
    }
}

/// Once a message has not ended well, the messages behind it change neither map nor players.
pub proof fn lemma_scene_tick_stops(
    map: MapView,
    players: PlayersView,
    msgs: Seq<MessageView>,
    k: int,
)
    requires
        0 <= k <= msgs.len(),
        !(scene_tick(map, players, msgs.subrange(0, k)).2 is Done),
    ensures
        scene_tick(map, players, msgs) == scene_tick(map, players, msgs.subrange(0, k)),
    decreases msgs.len() - k,
{
    if k < msgs.len() {
        let next = msgs.subrange(0, k + 1);
        assert(next.drop_last() == msgs.subrange(0, k));
        lemma_scene_tick_stops(map, players, msgs, k + 1);
    } else {
        assert(msgs.subrange(0, k) == msgs);
    }
}

/// What no message changes: the role and the id of the participant stay,
/// the chat log only grows at its end, and no picture leaves the cache.
pub proof fn lemma_step_keeps(room: RoomView, msg: MessageView)
    requires
        distinct_keys(room.images),
    ensures
        room.step(msg).0.master == room.master,
        room.step(msg).0.user_id == room.user_id,
        room.chat.len() <= room.step(msg).0.chat.len(),
        room.step(msg).0.chat.subrange(0, room.chat.len() as int) == room.chat,
        distinct_keys(room.step(msg).0.images),
        forall|k: Seq<char>| has_key(room.images, k) ==> #[trigger] has_key(
            room.step(msg).0.images,
            k,
        ),
{
    let after = room.step(msg).0;
    assert(after.chat.subrange(0, room.chat.len() as int) =~= room.chat);
    if after.images != room.images {
        let key = match value_of(msg.props, "path"@) {
            Some(path) => path,
            None => Seq::empty(),
        };
        lemma_put(room.images, key, msg.body.unwrap()->Image_0);
    }
}

/// What no tick changes: the role and the id of the participant stay, the
/// chat log only grows at its end, and no picture leaves the cache; so the
/// placeholder stays in it.
pub proof fn lemma_tick_keeps(room: RoomView, msgs: Seq<MessageView>)
    requires
        distinct_keys(room.images),
    ensures
        room.tick(msgs).0.master == room.master,
        room.tick(msgs).0.user_id == room.user_id,
        room.chat.len() <= room.tick(msgs).0.chat.len(),
        room.tick(msgs).0.chat.subrange(0, room.chat.len() as int) == room.chat,
        distinct_keys(room.tick(msgs).0.images),
        forall|k: Seq<char>| has_key(room.images, k) ==> #[trigger] has_key(
            room.tick(msgs).0.images,
            k,
        ),
    decreases msgs.len(),
{
    if msgs.len() == 0 {
        assert(room.chat.subrange(0, room.chat.len() as int) =~= room.chat);
    } else {
        let before = room.tick(msgs.drop_last());
        lemma_tick_keeps(room, msgs.drop_last());
        if before.2 is Done {
            lemma_step_keeps(before.0, msgs.last());
            let after = before.0.step(msgs.last()).0;
            assert(after.chat.subrange(0, room.chat.len() as int) =~= before.0.chat.subrange(
                0,
                room.chat.len() as int,
            ));
            assert forall|k: Seq<char>| has_key(room.images, k) implies #[trigger] has_key(
                after.images,
                k,
            ) by {
                assert(has_key(before.0.images, k));
            }
        }
    }
}

/// Removing a player is idempotent: an empty value under the id of a player
/// who is not there changes nothing, and under the id of one who is there it
/// removes the player, after which a second such entry changes nothing.
pub proof fn lemma_player_removal(players: PlayersView, id: Seq<char>, value: JsonView)
    requires
        distinct_keys(players),
        value.is_empty(),
    ensures
        player_step(players, id, value).1 is Done,
        !has_key(players, id) ==> player_step(players, id, value).0 == players,
        !has_key(player_step(players, id, value).0, id),
        player_step(player_step(players, id, value).0, id, value).0 == player_step(
            players,
            id,
            value,
        ).0,
{
    crate::dict::lemma_without(players, id);
}

/// The views of chat lines.
pub open spec fn chat_lines(log: Seq<ChatMessage>) -> Seq<(Seq<char>, Seq<char>)> {
    log.map_values(|c: ChatMessage| (c.sender_id@, c.text@))
}

/// The views of messages.
pub open spec fn message_views(msgs: Seq<Message>) -> Seq<MessageView> {
    msgs.map_values(|m: Message| m@)
}

/// What a participant knows of a room: the chat log, the players, the map,
/// and the pictures loaded so far.
pub struct RoomState {
    chat_log: Vec<ChatMessage>,
    master: bool,
    user_id: String,
    fs: AssetDirHandler,
    players: Dict<(String, Color)>,
    images: Dict<RetainedImage>,
    map: MapState,
}

impl View for RoomState {
    type V = RoomView;

    closed spec fn view(&self) -> RoomView {
        RoomView {
            chat: chat_lines(self.chat_log@),
            master: self.master,
            user_id: self.user_id@,
            players: player_entries(self.players@),
            images: self.images@,
            map: self.map@,
        }
    }
}

impl RoomState {
    /// The collections are well-formed, and the cache holds the placeholder.
    pub closed spec fn wf(&self) -> bool {
        &&& self.players.wf()
        &&& self.images.wf()
        &&& self.map.wf()
        &&& has_key(self.images@, placeholder_key())
    }

    /// What being well-formed means for the view.
    pub proof fn lemma_wf(&self)
        requires
            self.wf(),
        ensures
            distinct_keys(self@.players),
            distinct_keys(self@.images),
            self@.map.wf(),
            has_key(self@.images, placeholder_key()),
    {
        lemma_player_entries(self.players@, Seq::empty());
        self.map.lemma_wf();
    }

    /// The state of a room that was just entered: no chat, an empty map, the
    /// participant as the only player, and `placeholder` as the only picture.
    pub fn new(
        user_id: &str,
        nickname: &str,
        color: Color,
        master: bool,
        fs: AssetDirHandler,
        placeholder: RetainedImage,
    ) -> (room: Self)
        ensures
            room.wf(),
            room@ == (RoomView {
                chat: Seq::empty(),
                master,
                user_id: user_id@,
                players: seq![(user_id@, (nickname@, color))],
                images: seq![(placeholder_key(), placeholder)],
                map: MapView::empty(),
            }),
            room.fs_view() == fs,
    {
        let mut images: Dict<RetainedImage> = Dict::new();
        images.insert("placeholder".to_owned(), placeholder);
        let mut players: Dict<(String, Color)> = Dict::new();
        players.insert(user_id.to_owned(), (nickname.to_owned(), color));
        let room = RoomState {
            chat_log: Vec::new(),
            master,
            user_id: user_id.to_owned(),
            fs,
            players,
            images,
            map: MapState::new(),
        };
        proof {
            assert(room@.chat =~= Seq::empty());
            assert(room@.players =~= seq![(user_id@, (nickname@, color))]);
            assert(room@.images =~= seq![(placeholder_key(), placeholder)]);
            assert(room.images@[0].0 == placeholder_key());
        }
        room
    }

    /// The state of a room entered through a handshake: the participant is
    /// its only known player so far.
    pub fn with_identity(identity: &Identity, master: bool, fs: AssetDirHandler) -> (room: Self)
        ensures
            room.wf(),
            room.fs_view() == fs,
            room@.chat == Seq::<(Seq<char>, Seq<char>)>::empty(),
            room@.master == master,
            room@.user_id == identity@.user_id,
            room@.players == seq![
                (identity@.user_id, (identity@.nickname, identity@.user_color)),
            ],
            room@.map == MapView::empty(),
            room@.images.len() == 1,
            room@.images[0].0 == placeholder_key(),
    {
        RoomState::new(
            identity.get_user_id(),
            identity.get_nickname(),
            identity.get_user_color(),
            master,
            fs,
            get_placeholder_image(),
        )
    }

    /// The state of a room of the offline mode: the user is the master, under
    /// the identity of the loopback connection.
    pub fn create_local_server(fs: AssetDirHandler) -> (room: Self)
        ensures
            room.wf(),
            room.fs_view() == fs,
            room@.chat == Seq::<(Seq<char>, Seq<char>)>::empty(),
            room@.master,
            room@.user_id == Seq::<char>::empty(),
            room@.players == seq![(Seq::<char>::empty(), ("Master"@, Color::red()))],
            room@.map == MapView::empty(),
            room@.images.len() == 1,
            room@.images[0].0 == placeholder_key(),
    {
        let connection = LoopbackConnection::new();
        RoomState::new(
            connection.get_user_id(),
            connection.get_nickname(),
            connection.get_user_color(),
            true,
            fs,
            get_placeholder_image(),
        )
    }

    /// The handler of the asset directory.
    pub closed spec fn fs_view(&self) -> AssetDirHandler {
        self.fs
    }

    /// The fetches for those of `paths` that the cache lacks.
    fn fetch_actions(&self, paths: Vec<String>) -> (actions: Vec<Action>)
        requires
            self.wf(),
        ensures
            action_views(actions@) == fetches(self@.master, self@.images, texts(paths@)),
    {
        let mut actions: Vec<Action> = Vec::new();
        let ghost all = texts(paths@);
        let mut i: usize = 0;
        assert(all.subrange(0, 0) =~= Seq::empty());
        assert(action_views(actions@) =~= Seq::empty());
        while i < paths.len()
            invariant
                i <= paths@.len(),
                all == texts(paths@),
                self.wf(),
                action_views(actions@) == fetches(
                    self@.master,
                    self@.images,
                    all.subrange(0, i as int),
                ),
            decreases paths@.len() - i,
        {
            let ghost seen = actions@;
            proof {
                let cur = all.subrange(0, i + 1);
                assert(cur.drop_last() == all.subrange(0, i as int));
                assert(cur.last() == paths@[i as int]@);
            }
            if !self.images.contains_key(paths[i].as_str()) {
                if self.master {
                    actions.push(Action::LoadAsset(paths[i].clone()));
                } else {
                    let request = Message::new(MsgType::File).set_prop("path", paths[i].as_str());
                    assert(request@.props =~= seq![("path"@, paths@[i as int]@)]);
                    actions.push(Action::Send(request));
                }
                assert(action_views(actions@) =~= action_views(seen).push(
                    fetch_action(self@.master, paths@[i as int]@),
                ));
            }
            i += 1;
        }
        assert(all.subrange(0, paths@.len() as int) == all);
        actions
    }

    /// Folds one message into the room.
    pub fn apply_message(&mut self, msg: Message) -> (r: (Outcome, Vec<Action>))
        requires
            old(self).wf(),
            msg.wf(),
        ensures
            final(self).wf(),
            final(self).fs_view() == old(self).fs_view(),
            (final(self)@, action_views(r.1@), r.0) == old(self)@.step(msg@),
    {
        let mut msg = msg;
        let kind = msg.msg_type();
        let body = msg.take_body();
        let empty: Vec<Action> = Vec::new();
        assert(action_views(empty@) =~= Seq::empty());
        match kind {
            MsgType::MapDelta => match body {
                Some(MsgBody::Json(json)) => {
                    let (outcome, paths) = self.map.apply_delta(&json);
                    let actions = self.fetch_actions(paths);
                    (outcome, actions)
                },
                _ => {
                    assert(fetches(self@.master, self@.images, Seq::empty()) =~= Seq::empty());
                    (Outcome::Done, empty)
                },
            },
            MsgType::Player => match body {
                Some(MsgBody::Json(json)) => {
                    let outcome = apply_players(&mut self.players, &json);
                    assert(fetches(self@.master, self@.images, Seq::empty()) =~= Seq::empty());
                    (outcome, empty)
                },
                _ => {
                    assert(fetches(self@.master, self@.images, Seq::empty()) =~= Seq::empty());
                    (Outcome::Done, empty)
                },
            },
            MsgType::Msg => {
                match body {
                    Some(MsgBody::Text(text)) => {
                        match msg.get_prop("userId") {
                            Some(sender) => {
                                let ghost log = self.chat_log@;
                                let line = ChatMessage { sender_id: sender.to_owned(), text };
                                self.chat_log.push(line);
                                assert(chat_lines(self.chat_log@) =~= chat_lines(log).push(
                                    (sender@, text@),
                                ));
                            },
                            None => {},
                        }
                    },
                    _ => {},
                }
                (Outcome::Done, empty)
            },
            MsgType::File => {
                if self.master {
                    match msg.get_prop("path") {
                        Some(path) => {
                            let mut actions: Vec<Action> = Vec::new();
                            actions.push(Action::ServeFile(path.to_owned()));
                            assert(action_views(actions@) =~= seq![ActionView::ServeFile(path@)]);
                            (Outcome::Done, actions)
                        },
                        None => (Outcome::Done, empty),
                    }
                } else {
                    match body {
                        Some(MsgBody::Image(image)) => {
                            let key = match msg.get_prop("path") {
                                Some(path) => path.to_owned(),
                                None => String::new(),
                            };
                            proof {
                                lemma_put(self.images@, key@, image);
                            }
                            self.images.insert(key, image);
                            (Outcome::Done, empty)
                        },
                        _ => (Outcome::Done, empty),
                    }
                }
            },
            _ => {
                assert(fetches(self@.master, self@.images, Seq::empty()) =~= Seq::empty());
                (Outcome::Done, empty)
            },
        }
    }
}

/// A copy of the players.
fn clone_players(players: &Dict<(String, Color)>) -> (copy: Dict<(String, Color)>)
    requires
        players.wf(),
    ensures
        copy.wf(),
        player_entries(copy@) == player_entries(players@),
{
    let mut copy: Dict<(String, Color)> = Dict::new();
    let mut i: usize = 0;
    assert(player_entries(copy@) =~= player_entries(players@).subrange(0, 0));
    while i < players.len()
        invariant
            i <= players@.len(),
            players.wf(),
            copy.wf(),
            player_entries(copy@) == player_entries(players@).subrange(0, i as int),
        decreases players@.len() - i,
    {
        let key = players.key_at(i).clone();
        let player = players.value_at(i);
        let value = (player.0.clone(), player.1);
        proof {
            let before = copy@;
            lemma_player_entries(before, key@);
            if has_key(before, key@) {
                let j = index_of(before, key@);
                assert(player_entries(before)[j].0 == key@);
                assert(player_entries(players@)[j].0 == players@[j].0);
                assert(players@[j].0 != players@[i as int].0);
            }
            assert(player_entries(put(before, key@, value)) =~= player_entries(
                players@,
            ).subrange(0, i + 1));
        }
        copy.insert(key, value);
        i += 1;
    }
    assert(player_entries(players@).subrange(0, players@.len() as int) == player_entries(
        players@,
    ));
    copy
}

/// A message that carries a map delta.
pub open spec fn map_message(json: JsonView) -> MessageView {
    MessageView { kind: MsgType::MapDelta, props: Seq::empty(), body: Some(BodyView::Json(json)) }
}

/// The delta `{id: value}`.
pub open spec fn entry_delta(id: Seq<char>, value: JsonView) -> JsonView {
    JsonView::Object(seq![(id, value)])
}

/// The picture that the cache gives for `key`: the one stored under it, or
/// the placeholder.
pub open spec fn image_for(images: Seq<(Seq<char>, RetainedImage)>, key: Seq<char>) -> Option<
    RetainedImage,
> {
    if has_key(images, key) {
        value_of(images, key)
    } else {
        value_of(images, placeholder_key())
    }
}

/// `s` without white space at its ends.
fn trimmed(s: &str) -> (r: String)
    ensures
        r@ == trim(s@),
{
    let v = to_chars(s);
    assert(v@.subrange(0, v@.len() as int) == v@);
    let (lo, hi) = trim_range(&v, 0, v.len());
    from_chars(&v, lo, hi)
}

/// A message that carries the map delta `json`.
fn map_delta(json: Json) -> (m: Message)
    ensures
        m@ == map_message(json@),
        m.wf(),
{
    let mut m = Message::new(MsgType::MapDelta);
    m.attach_body(MsgBody::Json(json));
    m
}

impl RoomState {
    /// Whether the messages of a tick can be applied: whether applying them
    /// never comes to an object of a kind that cannot be built.
    pub fn can_update(&self, messages: &Vec<Message>) -> (b: bool)
        requires
            self.wf(),
        ensures
            b == !(self@.tick(message_views(messages@)).2 is Unimplemented),
    {
        if messages.len() == 0 {
            assert(message_views(messages@) =~= Seq::empty());
            return true;
        }
        let mut map = self.map.clone_state();
        let mut players = clone_players(&self.players);
        let ghost msgs = message_views(messages@);
        let ghost map0 = self@.map;
        let ghost players0 = self@.players;
        proof {
            lemma_tick_scene(self@, msgs);
        }
        let mut i: usize = 0;
        assert(msgs.subrange(0, 0) =~= Seq::empty());
        while i < messages.len()
            invariant
                i <= messages@.len(),
                msgs == message_views(messages@),
                scene_tick(map0, players0, msgs).2 == self@.tick(msgs).2,
                map.wf(),
                players.wf(),
                (map@, player_entries(players@), Outcome::Done) == scene_tick(
                    map0,
                    players0,
                    msgs.subrange(0, i as int),
                ),
            decreases messages@.len() - i,
        {
            let ghost prev_map = map@;
            let ghost prev_players = player_entries(players@);
            let msg = &messages[i];
            let outcome = match (msg.msg_type(), msg.body()) {
                (MsgType::MapDelta, Some(MsgBody::Json(json))) => map.apply_delta(json).0,
                (MsgType::Player, Some(MsgBody::Json(json))) => apply_players(&mut players, json),
                _ => Outcome::Done,
            };
            proof {
                let cur = msgs.subrange(0, i + 1);
                assert(cur.drop_last() == msgs.subrange(0, i as int));
                assert(cur.last() == messages@[i as int]@);
                assert(scene_tick(map0, players0, cur.drop_last()) == (
                    prev_map,
                    prev_players,
                    Outcome::Done,
                ));
                assert(scene_tick(map0, players0, cur) == (
                    map@,
                    player_entries(players@),
                    outcome,
                ));
            }
            match outcome {
                Outcome::Done => {},
                Outcome::Unimplemented => {
                    proof {
                        lemma_scene_tick_stops(map0, players0, msgs, i + 1);
                    }
                    return false;
                },
                Outcome::Failed(_) => {
                    proof {
                        lemma_scene_tick_stops(map0, players0, msgs, i + 1);
                    }
                    return true;
                },
            }
            i += 1;
        }
        assert(msgs.subrange(0, i as int) == msgs);
        true
    }

    /// Folds the messages of one tick into the room, in order. A malformed
    /// delta ends the tick with a protocol error: the messages before it stay
    /// applied and those behind it are dropped. What comes back, whether the
    /// tick ended well or not, is what the owner is to do for the messages
    /// that were applied: the messages to send and the files to read.
    pub fn update_self(&mut self, messages: Vec<Message>) -> (r: (
        Vec<Action>,
        Result<(), DraduError>,
    ))
        requires
            old(self).wf(),
            forall|i: int| 0 <= i < messages@.len() ==> (#[trigger] messages@[i]).wf(),
            !(old(self)@.tick(message_views(messages@)).2 is Unimplemented),
        ensures
            final(self).wf(),
            final(self).fs_view() == old(self).fs_view(),
            final(self)@ == old(self)@.tick(message_views(messages@)).0,
            action_views(r.0@) == old(self)@.tick(message_views(messages@)).1,
            match old(self)@.tick(message_views(messages@)).2 {
                Outcome::Failed(e) => r.1 is Err && r.1->Err_0 == e,
                _ => r.1 is Ok,
            },
    {
        let ghost msgs = message_views(messages@);
        let ghost start = self@;
        let mut actions: Vec<Action> = Vec::new();
        assert(action_views(actions@) =~= Seq::empty());
        assert(msgs.subrange(0, 0) =~= Seq::empty());
        for msg in it: messages.into_iter()
            invariant
                it.seq() == messages@,
                msgs == message_views(messages@),
                start == old(self)@,
                forall|i: int| 0 <= i < messages@.len() ==> (#[trigger] messages@[i]).wf(),
                !(start.tick(msgs).2 is Unimplemented),
                self.wf(),
                self.fs_view() == old(self).fs_view(),
                (self@, action_views(actions@), Outcome::Done) == start.tick(
                    msgs.subrange(0, it.index() as int),
                ),
        {
            let ghost i = it.index() as int;
            let ghost seen = actions@;
            let ghost prev = self@;
            proof {
                let cur = msgs.subrange(0, i + 1);
                assert(cur.drop_last() == msgs.subrange(0, i));
                assert(cur.last() == msg@);
                assert(msg.wf());
            }
            let (outcome, mut more) = self.apply_message(msg);
            let ghost added = more@;
            actions.append(&mut more);
            proof {
                assert(action_views(actions@) =~= action_views(seen) + action_views(added));
                let cur = msgs.subrange(0, i + 1);
                assert(start.tick(cur.drop_last()) == (prev, action_views(seen), Outcome::Done));
                assert(start.tick(cur) == (self@, action_views(actions@), outcome));
            }
            match outcome {
                Outcome::Failed(e) => {
                    proof {
                        lemma_tick_stops(start, msgs, i + 1);
                    }
                    return (actions, Err(e));
                },
                Outcome::Unimplemented => {
                    proof {
                        lemma_tick_stops(start, msgs, i + 1);
                    }
                    return (actions, Ok(()));
                },
                Outcome::Done => {},
            }
        }
        assert(msgs.subrange(0, msgs.len() as int) == msgs);
        (actions, Ok(()))
    }

    /// The handler of the asset directory.
    pub fn fs_ref(&self) -> (fs: &AssetDirHandler)
        ensures
            *fs == self.fs_view(),
    {
        &self.fs
    }

    /// The chat log, oldest line first.
    pub fn chat_log_ref(&self) -> (log: &Vec<ChatMessage>)
        ensures
            chat_lines(log@) == self@.chat,
    {
        &self.chat_log
    }

    /// The players by id: nickname and color.
    pub fn players_ref(&self) -> (players: &Dict<(String, Color)>)
        ensures
            player_entries(players@) == self@.players,
            self.wf() ==> players.wf(),
    {
        &self.players
    }

    /// The id of this participant.
    pub fn get_user_id(&self) -> (id: &str)
        ensures
            id@ == self@.user_id,
    {
        self.user_id.as_str()
    }

    /// Whether this participant made the room.
    pub fn is_master(&self) -> (b: bool)
        ensures
            b == self@.master,
    {
        self.master
    }

    /// Nickname and color of the player `id`.
    pub fn get_player_by_id(&self, id: &str) -> (r: Option<&(String, Color)>)
        requires
            self.wf(),
        ensures
            match r {
                Some(p) => value_of(self@.players, id@) == Some((p.0@, p.1)),
                None => value_of(self@.players, id@) is None,
            },
    {
        proof {
            lemma_player_entries(self.players@, id@);
        }
        self.players.get(id)
    }

    /// The map of the room.
    pub fn map(&self) -> (m: &MapState)
        ensures
            m@ == self@.map,
            self.wf() ==> m.wf(),
    {
        &self.map
    }

    /// Whether the cache holds a picture under `key`.
    pub fn has_image(&self, key: &str) -> (b: bool)
        requires
            self.wf(),
        ensures
            b == has_key(self@.images, key@),
    {
        self.images.contains_key(key)
    }

    /// The picture for `key`: the one in the cache, or the placeholder where
    /// the cache holds none under this key.
    pub fn get_image(&self, key: &str) -> (image: &RetainedImage)
        requires
            self.wf(),
        ensures
            image_for(self@.images, key@) == Some(*image),
    {
        match self.images.get(key) {
            Some(image) => image,
            None => self.images.at("placeholder"),
        }
    }

    /// Stores a picture in the cache under `key`, in place of any it held.
    pub fn add_image(&mut self, key: &str, image: RetainedImage)
        requires
            old(self).wf(),
        ensures
            final(self).wf(),
            final(self).fs_view() == old(self).fs_view(),
            final(self)@ == (RoomView {
                images: put(old(self)@.images, key@, image),
                ..old(self)@
            }),
    {
        proof {
            lemma_put(self.images@, key@, image);
        }
        self.images.insert(key.to_owned(), image);
    }

    /// What to do to have the file `path`: the master reads it from the asset
    /// directory unless the cache has it, a participant asks the room for it.
    pub fn request_file(&self, path: &str) -> (r: Option<Action>)
        requires
            self.wf(),
        ensures
            match r {
                Some(action) => action@ == fetch_action(self@.master, path@) && !(self@.master
                    && has_key(self@.images, path@)),
                None => self@.master && has_key(self@.images, path@),
            },
    {
        if self.master {
            if self.images.contains_key(path) {
                None
            } else {
                Some(Action::LoadAsset(path.to_owned()))
            }
        } else {
            let request = Message::new(MsgType::File).set_prop("path", path);
            assert(request@.props =~= seq![("path"@, path@)]);
            Some(Action::Send(request))
        }
    }

    /// The answer to a request for the file `path`: its bytes, marked as a
    /// picture.
    pub fn file_response(path: &str, bytes: Vec<u8>) -> (m: Message)
        ensures
            m@ == (MessageView {
                kind: MsgType::File,
                props: seq![("path"@, path@), ("contentType"@, "image"@)],
                body: Some(BodyView::Bin(bytes@)),
            }),
            m.wf(),
    {
        proof {
            reveal_strlit("path");
            reveal_strlit("contentType");
            assert("path"@.len() != "contentType"@.len());
        }
        let first = Message::new(MsgType::File).set_prop("path", path);
        assert(first@.props =~= seq![("path"@, path@)]);
        assert(first@.props[0].0 == "path"@);
        let mut m = first.set_prop("contentType", "image");
        proof {
            if has_key(first@.props, "contentType"@) {
                let i = index_of(first@.props, "contentType"@);
                assert(first@.props[i].0 == "path"@);
            }
            assert(m@.props =~= seq![("path"@, path@), ("contentType"@, "image"@)]);
        }
        m.attach_body(MsgBody::Bin(bytes));
        m
    }

    /// The notice that this participant leaves the room.
    pub fn quit_room(&self) -> (m: Message)
        ensures
            m@ == (MessageView { kind: MsgType::Quit, props: Seq::empty(), body: None }),
            m.wf(),
    {
        Message::new(MsgType::Quit)
    }

    /// A chat line with the text `text`.
    pub fn send_chat_message(&self, text: &str) -> (m: Message)
        ensures
            m@ == (MessageView {
                kind: MsgType::Msg,
                props: Seq::empty(),
                body: Some(BodyView::Text(text@)),
            }),
            m.wf(),
    {
        let mut m = Message::new(MsgType::Msg);
        m.attach_body(MsgBody::Text(text.to_owned()));
        m
    }

    /// The delta that moves the object `id` to `pos`; nothing where the map
    /// has no such object.
    pub fn move_map_object(&self, id: &str, pos: (Number, Number)) -> (r: Option<Message>)
        requires
            self.wf(),
        ensures
            match r {
                Some(m) => has_key(self@.map.objects, id@) && m.wf() && m@ == map_message(
                    entry_delta(
                        id@,
                        JsonView::Object(
                            seq![
                                (
                                    "pos"@,
                                    JsonView::Array(
                                        seq![JsonView::Number(pos.0), JsonView::Number(pos.1)],
                                    ),
                                ),
                            ],
                        ),
                    ),
                ),
                None => !has_key(self@.map.objects, id@),
            },
    {
        if self.map.contains(id) {
            let inner = Json::object_of(
                "pos",
                Json::pair(Json::Number(pos.0), Json::Number(pos.1)),
            );
            Some(map_delta(Json::object_of(id, inner)))
        } else {
            None
        }
    }

    /// The delta that deletes the object `id`; nothing where the map has no
    /// such object.
    pub fn delete_map_object(&self, id: &str) -> (r: Option<Message>)
        requires
            self.wf(),
        ensures
            match r {
                Some(m) => has_key(self@.map.objects, id@) && m.wf() && m@ == map_message(
                    entry_delta(id@, JsonView::Object(Seq::empty())),
                ),
                None => !has_key(self@.map.objects, id@),
            },
    {
        if self.map.contains(id) {
            Some(map_delta(Json::object_of(id, Json::object())))
        } else {
            None
        }
    }

    /// The delta that empties the map.
    pub fn clear_map(&self) -> (m: Message)
        ensures
            m@ == map_message(JsonView::Null),
            m.wf(),
    {
        map_delta(Json::Null)
    }

    /// The delta that gives the object `id` the scale `scale`; nothing where
    /// the map has no such object.
    pub fn rescale_map_object(&self, id: &str, scale: Number) -> (r: Option<Message>)
        requires
            self.wf(),
        ensures
            match r {
                Some(m) => has_key(self@.map.objects, id@) && m.wf() && m@ == map_message(
                    entry_delta(
                        id@,
                        JsonView::Object(seq![("scale"@, JsonView::Number(scale))]),
                    ),
                ),
                None => !has_key(self@.map.objects, id@),
            },
    {
        if self.map.contains(id) {
            let inner = Json::object_of("scale", Json::Number(scale));
            Some(map_delta(Json::object_of(id, inner)))
        } else {
            None
        }
    }

    /// The delta that changes one property of the token `id`: `val` is the
    /// new value, null to remove the property. Nothing where `id` is no
    /// token of the map, or where the key is empty once trimmed.
    pub fn change_token_property(&self, id: &str, key: &str, val: Json) -> (r: Option<Message>)
        requires
            self.wf(),
        ensures
            match r {
                Some(m) => is_token(self@.map, id@) && trim(key@).len() > 0 && m.wf() && m@
                    == map_message(
                    entry_delta(
                        id@,
                        JsonView::Object(
                            seq![("properties"@, JsonView::Object(seq![(trim(key@), val@)]))],
                        ),
                    ),
                ),
                None => !(is_token(self@.map, id@) && trim(key@).len() > 0),
            },
    {
        match self.map.object(id) {
            Some(MapObject::Token(_)) => {
                let key = trimmed(key);
                if key.as_str().is_empty() {
                    None
                } else {
                    let inner = Json::object_of(
                        "properties",
                        Json::object_of(key.as_str(), val),
                    );
                    Some(map_delta(Json::object_of(id, inner)))
                }
            },
            _ => None,
        }
    }

    /// The delta that sets a property of the token `id` to `val`, trimmed.
    pub fn update_token_property(&self, id: &str, key: &str, val: &str) -> (r: Option<Message>)
        requires
            self.wf(),
        ensures
            match r {
                Some(m) => is_token(self@.map, id@) && trim(key@).len() > 0 && m.wf() && m@
                    == map_message(
                    entry_delta(
                        id@,
                        JsonView::Object(
                            seq![
                                (
                                    "properties"@,
                                    JsonView::Object(
                                        seq![(trim(key@), JsonView::Str(trim(val@)))],
                                    ),
                                ),
                            ],
                        ),
                    ),
                ),
                None => !(is_token(self@.map, id@) && trim(key@).len() > 0),
            },
    {
        self.change_token_property(id, key, Json::Str(trimmed(val)))
    }

    /// The delta that removes a property of the token `id`.
    pub fn remove_token_property(&self, id: &str, key: &str) -> (r: Option<Message>)
        requires
            self.wf(),
        ensures
            match r {
                Some(m) => is_token(self@.map, id@) && trim(key@).len() > 0 && m.wf() && m@
                    == map_message(
                    entry_delta(
                        id@,
                        JsonView::Object(
                            seq![
                                (
                                    "properties"@,
                                    JsonView::Object(seq![(trim(key@), JsonView::Null)]),
                                ),
                            ],
                        ),
                    ),
                ),
                None => !(is_token(self@.map, id@) && trim(key@).len() > 0),
            },
    {
        self.change_token_property(id, key, Json::Null)
    }

    /// The delta that sets the grid to `size[0]` columns by `size[1]` rows,
    /// or takes the grid away where a side is below 2.
    pub fn change_grid_size(&self, size: [u8; 2]) -> (m: Message)
        ensures
            m.wf(),
            m@ == map_message(
                entry_delta(
                    "grid"@,
                    if size@[0] >= 2 && size@[1] >= 2 {
                        JsonView::Object(
                            seq![
                                (
                                    "size"@,
                                    JsonView::Array(
                                        seq![
                                            JsonView::Number(
                                                Number {
                                                    positive: true,
                                                    mantissa: size@[0] as u64,
                                                    exponent: 0,
                                                },
                                            ),
                                            JsonView::Number(
                                                Number {
                                                    positive: true,
                                                    mantissa: size@[1] as u64,
                                                    exponent: 0,
                                                },
                                            ),
                                        ],
                                    ),
                                ),
                            ],
                        )
                    } else {
                        JsonView::Object(Seq::empty())
                    },
                ),
            ),
    {
        let grid = if size[0] >= 2 && size[1] >= 2 {
            Json::object_of(
                "size",
                Json::pair(
                    Json::Number(Number::from_u8(size[0])),
                    Json::Number(Number::from_u8(size[1])),
                ),
            )
        } else {
            Json::object()
        };
        map_delta(Json::object_of("grid", grid))
    }

    /// What placing a new object takes, given its id: loading its picture
    /// unless the cache has it, then sending the delta that creates it.
    pub fn insert_with_id(&self, id: &str, path: &str, obj_type: &str) -> (actions: Vec<Action>)
        requires
            self.wf(),
        ensures
            action_views(actions@) == placing(
                self@.images,
                path@,
                entry_delta(
                    id@,
                    JsonView::Object(
                        seq![("type"@, JsonView::Str(obj_type@)), ("path"@, JsonView::Str(path@))],
                    ),
                ),
            ),
    {
        let inner = Json::object_of("type", Json::string(obj_type)).with_entry(
            "path",
            Json::string(path),
        );
        assert(inner@->Object_0 =~= seq![
            ("type"@, JsonView::Str(obj_type@)),
            ("path"@, JsonView::Str(path@)),
        ]);
        self.load_then_send(path, Json::object_of(id, inner))
    }

    /// What placing a new object of the kind `obj_type` with the picture
    /// `path` takes. The object gets a fresh id.
    pub fn insert_from_path(&self, path: &str, obj_type: &str) -> (actions: Vec<Action>)
        requires
            self.wf(),
        ensures
            exists|id: Seq<char>|
                is_object_id(id) && #[trigger] action_views(actions@) == placing(
                    self@.images,
                    path@,
                    entry_delta(
                        id,
                        JsonView::Object(
                            seq![
                                ("type"@, JsonView::Str(obj_type@)),
                                ("path"@, JsonView::Str(path@)),
                            ],
                        ),
                    ),
                ),
    {
        let id = random_id();
        self.insert_with_id(id.as_str(), path, obj_type)
    }

    /// What making `path` the background takes: loading the picture unless
    /// the cache has it, then sending the delta.
    pub fn set_background_image(&self, path: &str) -> (actions: Vec<Action>)
        requires
            self.wf(),
        ensures
            action_views(actions@) == placing(
                self@.images,
                path@,
                entry_delta(
                    "background"@,
                    JsonView::Object(seq![("path"@, JsonView::Str(path@))]),
                ),
            ),
    {
        let inner = Json::object_of("path", Json::string(path));
        self.load_then_send(path, Json::object_of("background", inner))
    }

    /// Loading `path` unless the cache has it, then sending `delta`.
    fn load_then_send(&self, path: &str, delta: Json) -> (actions: Vec<Action>)
        requires
            self.wf(),
        ensures
            action_views(actions@) == placing(self@.images, path@, delta@),
    {
        let mut actions: Vec<Action> = Vec::new();
        if !self.images.contains_key(path) {
            actions.push(Action::LoadAsset(path.to_owned()));
        }
        actions.push(Action::Send(map_delta(delta)));
        assert(action_views(actions@) =~= placing(self@.images, path@, delta@));
        actions
    }
}

/// Whether the map holds a token under `id`.
pub open spec fn is_token(map: MapView, id: Seq<char>) -> bool {
    has_key(map.objects, id) && value_of(map.objects, id).unwrap() is Token
}

/// The steps of placing a picture on the map: loading it where the cache
/// lacks it, then sending the delta that refers to it.
pub open spec fn placing(
    images: Seq<(Seq<char>, RetainedImage)>,
    path: Seq<char>,
    delta: JsonView,
) -> Seq<ActionView> {
    if has_key(images, path) {
        seq![ActionView::Send(map_message(delta))]
    } else {
        seq![ActionView::LoadAsset(path), ActionView::Send(map_message(delta))]
    }
}

} // verus!

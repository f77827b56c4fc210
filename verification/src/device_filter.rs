//! Per-device filtering and remapping of input events.
//!
//! Events are transformed only (keys renamed, combos and sequences expanded, keys dropped);
//! where they are routed is decided elsewhere.

use crate::config::{AppConfig, DeviceConfig, DeviceModel};
use crate::input::{EventModel, InputEvent, InputEventPacket, KeyModel, KeyboardEvent, PacketModel};
use crate::string_map::StringMap;
use crate::text::{
    all_trimmed, has_char, has_prefix, join, joined, law_joined, law_pieces, law_views,
    lemma_pieces_chars, lemma_pieces_len, lemma_pieces_of_joined, lemma_trimmed_chars,
    lemma_trimmed_twice, pieces, split_and_trim, trim, trimmed, views,
};
use vstd::prelude::*;

verus! {

/// Key expression for remapping: a single key, a combination (chord), or a sequence.
#[derive(Debug, PartialEq, Eq, Hash)]
pub enum KeyExpr {
    Single(String),
    /// Keys pressed together.
    Combo(Vec<String>),
    /// Keys pressed in order.
    Sequence(Vec<String>),
}

/// The model of a [`KeyExpr`].
pub enum KeyExprModel {
    Single(Seq<char>),
    Combo(Seq<Seq<char>>),
    Sequence(Seq<Seq<char>>),
}

impl KeyExprModel {
    /// The keys that the expression stands for, in order.
    pub open spec fn keys(self) -> Seq<Seq<char>> {
        match self {
            KeyExprModel::Single(key) => seq![key],
            KeyExprModel::Combo(keys) => keys,
            KeyExprModel::Sequence(keys) => keys,
        }
    }

    /// The text of the expression: a single key, keys joined by `+`, or keys joined by `,`.
    pub open spec fn text(self) -> Seq<char> {
        match self {
            KeyExprModel::Single(key) => key,
            KeyExprModel::Combo(keys) => joined(keys, '+'),
            KeyExprModel::Sequence(keys) => joined(keys, ','),
        }
    }

    /// The expression that a text denotes.
    ///
    /// A text with a comma is a sequence, any other with a plus sign a combo, and the rest
    /// single keys. White space around a key is dropped.
    pub open spec fn parsed(text: Seq<char>) -> KeyExprModel {
        if text.contains(',') {
            KeyExprModel::Sequence(all_trimmed(pieces(text, ',')))
        } else if text.contains('+') {
            KeyExprModel::Combo(all_trimmed(pieces(text, '+')))
        } else {
            KeyExprModel::Single(trimmed(text))
        }
    }
}

impl View for KeyExpr {
    type V = KeyExprModel;

    open spec fn view(&self) -> KeyExprModel {
        match self {
            KeyExpr::Single(key) => KeyExprModel::Single(key@),
            KeyExpr::Combo(keys) => KeyExprModel::Combo(views(keys@)),
            KeyExpr::Sequence(keys) => KeyExprModel::Sequence(views(keys@)),
        }
    }
}

/// A copy of a list of texts.
fn clone_texts(texts: &Vec<String>) -> (r: Vec<String>)
    ensures
        views(r@) == views(texts@),
{
    let r = texts.clone();
    proof {
        assert forall|i: int| 0 <= i < r@.len() implies r@[i]@ == texts@[i]@ by {
            assert(cloned(texts@[i], r@[i]));
        }
        assert(views(r@) =~= views(texts@));
    }
    r
}

impl Clone for KeyExpr {
    fn clone(&self) -> (r: Self)
        ensures
            r@ == self@,
    {
        match self {
            KeyExpr::Single(key) => KeyExpr::Single(key.clone()),
            KeyExpr::Combo(keys) => KeyExpr::Combo(clone_texts(keys)),
            KeyExpr::Sequence(keys) => KeyExpr::Sequence(clone_texts(keys)),
        }
    }
}

impl KeyExpr {
    /// Parse a key expression from a string (simple format: `KEY_A`, `KEY_A+KEY_B`, `KEY_A,KEY_B`).
    pub fn parse(expr: &str) -> (r: Self)
        ensures
            r@ == KeyExprModel::parsed(expr@),
    {
        if has_char(expr, ',') {
            KeyExpr::Sequence(split_and_trim(expr, ','))
        } else if has_char(expr, '+') {
            KeyExpr::Combo(split_and_trim(expr, '+'))
        } else {
            KeyExpr::Single(trim(expr))
        }
    }

    /// The text of the expression, in the format that [`KeyExpr::parse`] reads.
    pub fn to_string(&self) -> (r: String)
        ensures
            r@ == self@.text(),
    {
        proof {
            reveal_strlit("+");
            reveal_strlit(",");
        }
        match self {
            KeyExpr::Single(key) => key.clone(),
            KeyExpr::Combo(keys) => join(keys, "+"),
            KeyExpr::Sequence(keys) => join(keys, ","),
        }
    }
}

/// One keyboard event of the same kind for every key of `keys`, in order.
pub open spec fn for_each_key(event: KeyModel, keys: Seq<Seq<char>>) -> Seq<EventModel> {
    Seq::new(keys.len(), |i: int| EventModel::Keyboard(event.with_key(keys[i])))
}

/// What one event becomes under a device configuration.
///
/// A keyboard event of a remapped key becomes one event per key of the expression. One of
/// another key is dropped if only remapped keys are let through. Everything else is unchanged.
pub open spec fn expanded(event: EventModel, config: DeviceModel) -> Seq<EventModel> {
    match event {
        EventModel::Keyboard(change) => if config.remap.contains_key(change.key()) {
            for_each_key(change, config.remap[change.key()].keys())
        } else if config.remap_whitelist {
            Seq::empty()
        } else {
            seq![event]
        },
        _ => seq![event],
    }
}

/// What a list of events becomes under a device configuration.
pub open spec fn transformed(events: Seq<EventModel>, config: DeviceModel) -> Seq<EventModel>
    decreases events.len(),
{
    if events.len() == 0 {
        Seq::empty()
    } else {
        transformed(events.drop_last(), config) + expanded(events.last(), config)
    }
}

/// A packet that could not be transformed.
///
/// Every rule applies to every event, so no function of this module returns it.
#[derive(Debug)]
pub struct TransformError(());

/// Device filter that applies per-device transformations.
pub struct DeviceFilter {
    /// Device configurations mapped by device ID.
    device_configs: StringMap<DeviceConfig>,
}

impl View for DeviceFilter {
    type V = Map<Seq<char>, DeviceModel>;

    closed spec fn view(&self) -> Map<Seq<char>, DeviceModel> {
        self.device_configs@
    }
}

impl Clone for DeviceFilter {
    fn clone(&self) -> (r: Self)
        ensures
            r@ == self@,
    {
        DeviceFilter { device_configs: self.device_configs.clone() }
    }
}

impl DeviceFilter {
    /// Create a new device filter from application configuration.
    pub fn new(config: &AppConfig) -> (r: Self)
        ensures
            r@ == config.device@,
    {
        DeviceFilter { device_configs: config.device.clone() }
    }

    /// Transform an input event packet according to device-specific rules.
    ///
    /// A packet of a device without configuration is returned as it is.
    pub fn transform_packet(&self, packet: InputEventPacket) -> (r: Result<
        InputEventPacket,
        TransformError,
    >)
        ensures
            r matches Ok(out) && out@ == self.transformed_packet(packet@),
    {
        let mut packet = packet;
        match self.device_configs.get(packet.device_id.as_str()) {
            Some(config) => {
                let mut filtered_events: Vec<InputEvent> = Vec::new();
                let mut events: Vec<InputEvent> = Vec::new();
                std::mem::swap(&mut events, &mut packet.events);
                let ghost before = views(events@);
                assert(before.take(0) =~= Seq::empty());
                assert(views(filtered_events@) =~= Seq::empty());
                for event in it: events
                    invariant
                        views(it.seq()) == before,
                        views(filtered_events@) == transformed(
                            before.take(it.index()),
                            config@,
                        ),
                {
                    let ghost upto = before.take(it.index() + 1);
                    assert(upto.drop_last() =~= before.take(it.index()));
                    assert(upto.last() == event@);
                    let mut expansion = self.expand_event(event, config)?;
                    let ghost filtered = filtered_events@;
                    let ghost added = expansion@;
                    filtered_events.append(&mut expansion);
                    assert(views(filtered + added) =~= views(filtered) + views(added));
                }
                assert(before.take(before.len() as int) =~= before);
                packet.events = filtered_events;
            },
            None => {},
        }
        Ok(packet)
    }

    /// What a packet becomes.
    pub open spec fn transformed_packet(&self, packet: PacketModel) -> PacketModel {
        if self@.contains_key(packet.device_id) {
            PacketModel {
                events: transformed(packet.events, self@[packet.device_id]),
                ..packet
            }
        } else {
            packet
        }
    }

    /// Get the configured backend for a device (used by the router).
    pub fn get_device_backend(&self, device_id: &str) -> (r: Option<&str>)
        ensures
            match r {
                Some(backend) => self@.contains_key(device_id@) && backend@
                    == self@[device_id@].map_backend,
                None => !self@.contains_key(device_id@),
            },
    {
        match self.device_configs.get(device_id) {
            Some(config) => Some(config.map_backend.as_str()),
            None => None,
        }
    }

    /// Get the configured device type for a device.
    pub fn get_device_type(&self, device_id: &str) -> (r: Option<&str>)
        ensures
            match r {
                Some(kind) => self@.contains_key(device_id@) && kind@
                    == self@[device_id@].device_type,
                None => !self@.contains_key(device_id@),
            },
    {
        match self.device_configs.get(device_id) {
            Some(config) => Some(config.device_type.as_str()),
            None => None,
        }
    }

    /// Check if a device has any configuration.
    pub fn has_device_config(&self, device_id: &str) -> (r: bool)
        ensures
            r == self@.contains_key(device_id@),
    {
        self.device_configs.contains_key(device_id)
    }

    /// Expand an input event according to remapping rules.
    pub fn expand_event(&self, event: InputEvent, config: &DeviceConfig) -> (r: Result<
        Vec<InputEvent>,
        TransformError,
    >)
        ensures
            r matches Ok(out) && views(out@) == expanded(event@, config@),
    {
        match event {
            InputEvent::Keyboard(keyboard_event) => {
                let key = match &keyboard_event {
                    KeyboardEvent::KeyPress { key } => key,
                    KeyboardEvent::KeyRelease { key } => key,
                };
                match config.remap.get(key.as_str()) {
                    Some(expr) => {
                        let out = match expr {
                            KeyExpr::Single(remap) => {
                                let out = vec![with_key(&keyboard_event, remap)];
                                assert(views(out@) =~= for_each_key(
                                    keyboard_event@,
                                    seq![remap@],
                                ));
                                out
                            },
                            KeyExpr::Combo(keys) => with_keys(&keyboard_event, keys),
                            KeyExpr::Sequence(keys) => with_keys(&keyboard_event, keys),
                        };
                        Ok(out)
                    },
                    None => {
                        if config.remap_whitelist {
                            let out: Vec<InputEvent> = Vec::new();
                            assert(views(out@) =~= Seq::empty());
                            Ok(out)
                        } else {
                            let out = vec![InputEvent::Keyboard(keyboard_event)];
                            assert(views(out@) =~= seq![event@]);
                            Ok(out)
                        }
                    },
                }
            },
            other => {
                let out = vec![other];
                assert(views(out@) =~= seq![event@]);
                Ok(out)
            },
        }
    }

    /// Check if a key string appears to be a standard evdev key code.
    pub fn is_standard_evdev_key(key: &str) -> (r: bool)
        ensures
            r == ("KEY_"@.is_prefix_of(key@) || "BTN_"@.is_prefix_of(key@) || "ABS_"@.is_prefix_of(
                key@,
            ) || "REL_"@.is_prefix_of(key@)),
    {
        has_prefix(key, "KEY_") || has_prefix(key, "BTN_") || has_prefix(key, "ABS_")
            || has_prefix(key, "REL_")
    }
}

/// The event of the same kind for another key.
fn with_key(event: &KeyboardEvent, key: &String) -> (r: InputEvent)
    ensures
        r@ == EventModel::Keyboard(event@.with_key(key@)),
{
    match event {
        KeyboardEvent::KeyPress { .. } => InputEvent::Keyboard(
            KeyboardEvent::KeyPress { key: key.clone() },
        ),
        KeyboardEvent::KeyRelease { .. } => InputEvent::Keyboard(
            KeyboardEvent::KeyRelease { key: key.clone() },
        ),
    }
}

/// One event of the same kind for every key.
fn with_keys(event: &KeyboardEvent, keys: &Vec<String>) -> (r: Vec<InputEvent>)
    ensures
        views(r@) == for_each_key(event@, views(keys@)),
{
    let mut r: Vec<InputEvent> = Vec::new();
    let mut i: usize = 0;
    while i < keys.len()
        invariant
            i <= keys@.len(),
            i == r@.len(),
            forall|k: int|
                0 <= k < i ==> (#[trigger] r@[k])@ == EventModel::Keyboard(
                    event@.with_key(keys@[k]@),
                ),
        decreases keys@.len() - i,
    {
        r.push(with_key(event, &keys[i]));
        i += 1;
    }
    assert(views(r@) =~= for_each_key(event@, views(keys@)));
    r
}

/// Whether a key can stand in a text of keys separated by `sep` without being cut or trimmed.
pub open spec fn plain_key(key: Seq<char>, sep: char) -> bool {
    !key.contains(sep) && trimmed(key) == key
}

impl KeyExprModel {
    /// Whether the expression is one that its text denotes.
    ///
    /// Keys hold no white space at their ends and no separator that would be read as one, and
    /// combos and sequences have two keys or more.
    pub open spec fn canonical(self) -> bool {
        match self {
            KeyExprModel::Single(key) => plain_key(key, ',') && plain_key(key, '+'),
            KeyExprModel::Combo(keys) => keys.len() >= 2 && forall|i: int|
                0 <= i < keys.len() ==> plain_key(#[trigger] keys[i], ',') && plain_key(
                    keys[i],
                    '+',
                ),
            KeyExprModel::Sequence(keys) => keys.len() >= 2 && forall|i: int|
                0 <= i < keys.len() ==> plain_key(#[trigger] keys[i], ','),
        }
    }
}

/// A text that is a joining of two or more parts holds the separator, and otherwise only
/// characters of the parts.
proof fn lemma_joined_chars(parts: Seq<Seq<char>>, sep: char, c: char)
    ensures
        parts.len() >= 2 ==> joined(parts, sep).contains(sep),
        joined(parts, sep).contains(c) && c != sep ==> exists|i: int|
            0 <= i < parts.len() && (#[trigger] parts[i]).contains(c),
    decreases parts.len(),
{
    let s = joined(parts, sep);
    if parts.len() >= 2 {
        let init = parts.drop_last();
        let head = joined(init, sep);
        assert(s[head.len() as int] == sep);
        lemma_joined_chars(init, sep, c);
        if s.contains(c) && c != sep {
            let k = choose|k: int| 0 <= k < s.len() && s[k] == c;
            if k < head.len() {
                assert(head[k] == c);
                let i = choose|i: int| 0 <= i < init.len() && (#[trigger] init[i]).contains(c);
                assert(parts[i] == init[i]);
                assert(parts[i].contains(c));
            } else {
                assert(parts.last()[k - head.len() - 1] == c);
                assert(parts[parts.len() - 1].contains(c));
            }
        }
    } else if parts.len() == 1 {
        if s.contains(c) {
            assert(parts[0].contains(c));
        }
    }
}

proof fn lemma_all_trimmed_fixed(keys: Seq<Seq<char>>)
    requires
        forall|i: int| 0 <= i < keys.len() ==> trimmed(#[trigger] keys[i]) == keys[i],
    ensures
        all_trimmed(keys) == keys,
{
    assert(all_trimmed(keys) =~= keys);
}

/// The text of a canonical expression denotes that expression.
proof fn lemma_text_denotes(expr: KeyExprModel)
    requires
        expr.canonical(),
    ensures
        KeyExprModel::parsed(expr.text()) == expr,
{
    match expr {
        KeyExprModel::Single(_) => {},
        KeyExprModel::Combo(keys) => {
            lemma_joined_chars(keys, '+', ',');
            assert forall|i: int| 0 <= i < keys.len() implies !(#[trigger] keys[i]).contains(
                '+',
            ) by {
                assert(plain_key(keys[i], '+'));
            }
            lemma_pieces_of_joined(keys, '+');
            lemma_all_trimmed_fixed(keys);
        },
        KeyExprModel::Sequence(keys) => {
            lemma_joined_chars(keys, ',', ',');
            assert forall|i: int| 0 <= i < keys.len() implies !(#[trigger] keys[i]).contains(
                ',',
            ) by {
                assert(plain_key(keys[i], ','));
            }
            lemma_pieces_of_joined(keys, ',');
            lemma_all_trimmed_fixed(keys);
        },
    }
}

/// Law: what is parsed is canonical, whatever the text.
pub proof fn law_parsed_canonical(text: Seq<char>)
    ensures
        KeyExprModel::parsed(text).canonical(),
{
    if text.contains(',') {
        let ps = pieces(text, ',');
        lemma_pieces_len(text, ',');
        assert forall|i: int| 0 <= i < ps.len() implies plain_key(
            #[trigger] all_trimmed(ps)[i],
            ',',
        ) by {
            lemma_trimmed_twice(ps[i]);
            if trimmed(ps[i]).contains(',') {
                lemma_trimmed_chars(ps[i], ',');
                lemma_pieces_chars(text, ',', i, ',');
            }
        }
    } else if text.contains('+') {
        let ps = pieces(text, '+');
        lemma_pieces_len(text, '+');
        assert forall|i: int| 0 <= i < ps.len() implies plain_key(
            #[trigger] all_trimmed(ps)[i],
            ',',
        ) && plain_key(all_trimmed(ps)[i], '+') by {
            lemma_trimmed_twice(ps[i]);
            if trimmed(ps[i]).contains('+') {
                lemma_trimmed_chars(ps[i], '+');
                lemma_pieces_chars(text, '+', i, '+');
            }
            if trimmed(ps[i]).contains(',') {
                lemma_trimmed_chars(ps[i], ',');
                lemma_pieces_chars(text, '+', i, ',');
            }
        }
    } else {
        lemma_trimmed_twice(text);
        if trimmed(text).contains(',') {
            lemma_trimmed_chars(text, ',');
        }
        if trimmed(text).contains('+') {
            lemma_trimmed_chars(text, '+');
        }
    }
}

/// Law: the text of an expression denotes that expression exactly if the expression is canonical.
pub proof fn law_text_denotes(expr: KeyExprModel)
    ensures
        KeyExprModel::parsed(expr.text()) == expr <==> expr.canonical(),
{
    if expr.canonical() {
        lemma_text_denotes(expr);
    }
    law_parsed_canonical(expr.text());
}

/// Law: writing out a parsed expression and parsing it again changes nothing, whatever the text.
pub proof fn law_parse_again(text: Seq<char>)
    ensures
        KeyExprModel::parsed(KeyExprModel::parsed(text).text()) == KeyExprModel::parsed(text),
{
    law_parsed_canonical(text);
    law_text_denotes(KeyExprModel::parsed(text));
}

/// Law: events are transformed one by one and in order, so a list may be cut anywhere.
pub proof fn law_transformed_in_order(
    first: Seq<EventModel>,
    second: Seq<EventModel>,
    config: DeviceModel,
)
    ensures
        transformed(first + second, config) == transformed(first, config) + transformed(
            second,
            config,
        ),
    decreases second.len(),
{
    if second.len() == 0 {
        assert(first + second =~= first);
        assert(transformed(first, config) + Seq::empty() =~= transformed(first, config));
    } else {
        law_transformed_in_order(first, second.drop_last(), config);
        assert((first + second).drop_last() =~= first + second.drop_last());
        assert(transformed(first + second, config) =~= transformed(first, config) + transformed(
            second,
            config,
        ));
    }
}

/// Law: a configuration that remaps nothing and lets every key through changes nothing.
pub proof fn law_transformed_unchanged(events: Seq<EventModel>, config: DeviceModel)
    requires
        config.remap.is_empty(),
        !config.remap_whitelist,
    ensures
        transformed(events, config) == events,
    decreases events.len(),
{
    if events.len() > 0 {
        law_transformed_unchanged(events.drop_last(), config);
        assert(expanded(events.last(), config) == seq![events.last()]);
        assert(transformed(events, config) =~= events);
    } else {
        assert(transformed(events, config) =~= events);
    }
}

/// Whether a keyboard change is one that the configuration makes out of `source`.
pub open spec fn remapped_from(change: KeyModel, source: KeyModel, config: DeviceModel) -> bool {
    &&& config.remap.contains_key(source.key())
    &&& config.remap[source.key()].keys().contains(change.key())
    &&& change == source.with_key(change.key())
}

/// Law: with the whitelist on, every keyboard event that comes out was made from an event of a
/// remapped key, by that key's expression and of the same kind.
pub proof fn law_whitelist(events: Seq<EventModel>, config: DeviceModel, i: int, change: KeyModel)
    requires
        config.remap_whitelist,
        0 <= i < transformed(events, config).len(),
        transformed(events, config)[i] == EventModel::Keyboard(change),
    ensures
        exists|source: KeyModel|
            events.contains(EventModel::Keyboard(source)) && remapped_from(
                change,
                source,
                config,
            ),
    decreases events.len(),
{
    let init = events.drop_last();
    let head = transformed(init, config);
    if i < head.len() {
        law_whitelist(init, config, i, change);
        let source = choose|source: KeyModel|
            init.contains(EventModel::Keyboard(source)) && remapped_from(change, source, config);
        let k = choose|k: int| 0 <= k < init.len() && init[k] == EventModel::Keyboard(source);
        assert(events[k] == EventModel::Keyboard(source));
        assert(events.contains(EventModel::Keyboard(source)));
    } else {
        let last = events.last();
        assert(events[events.len() - 1] == last);
        assert(expanded(last, config)[i - head.len()] == EventModel::Keyboard(change));
        match last {
            EventModel::Keyboard(source) => {
                assert(config.remap[source.key()].keys()[i - head.len()] == change.key());
                assert(events.contains(EventModel::Keyboard(source)));
                assert(remapped_from(change, source, config));
            },
            _ => {},
        }
    }
}

/// Whether an event is not a keyboard event.
pub open spec fn not_keyboard(event: EventModel) -> bool {
    !(event is Keyboard)
}

/// Law: events other than keyboard events come out all, unchanged and in order.
pub proof fn law_other_events_kept(events: Seq<EventModel>, config: DeviceModel)
    ensures
        transformed(events, config).filter(|e: EventModel| not_keyboard(e)) == events.filter(
            |e: EventModel| not_keyboard(e),
        ),
    decreases events.len(),
{
    let p = |e: EventModel| not_keyboard(e);
    reveal(Seq::filter);
    if events.len() > 0 {
        let init = events.drop_last();
        let last = events.last();
        law_other_events_kept(init, config);
        let head = transformed(init, config);
        Seq::filter_distributes_over_add(head, expanded(last, config), p);
        assert(expanded(last, config).filter(p) =~= if p(last) {
            seq![last]
        } else {
            Seq::empty()
        }) by {
            let out = expanded(last, config);
            if p(last) {
                assert(out =~= seq![last]);
                assert(out.drop_last() =~= Seq::empty());
                assert(out.filter(p) =~= seq![last]);
            } else {
                assert forall|i: int| 0 <= i < out.len() implies !p(#[trigger] out[i]) by {}
                lemma_filter_none(out, p);
            }
        }
    }
}

proof fn lemma_filter_none(s: Seq<EventModel>, p: spec_fn(EventModel) -> bool)
    requires
        forall|i: int| 0 <= i < s.len() ==> !p(#[trigger] s[i]),
    ensures
        s.filter(p) == Seq::<EventModel>::empty(),
    decreases s.len(),
{
    reveal(Seq::filter);
    if s.len() > 0 {
        lemma_filter_none(s.drop_last(), p);
    }
}

/// Law: a text with a comma is a sequence, any other with a plus sign a combo, and the rest are
/// single keys, which lose the white space around them.
pub proof fn law_parse_kind(expr: &str, r: KeyExpr)
    requires
        call_ensures(KeyExpr::parse, (expr,), r),
    ensures
        r is Sequence <==> expr@.contains(','),
        r is Combo <==> !expr@.contains(',') && expr@.contains('+'),
        r matches KeyExpr::Single(key) ==> key@ == trimmed(expr@),
{
}

/// Law: a sequence has one key more than the text has commas. Key `i` is what stands between comma
/// `i` and the next one, without the white space around it, however many keys there are.
pub proof fn law_parse_sequence(expr: &str, r: KeyExpr, keys: Vec<String>, i: int)
    requires
        call_ensures(KeyExpr::parse, (expr,), r),
        r == KeyExpr::Sequence(keys),
    ensures
        keys@.len() == expr@.to_multiset().count(',') + 1,
        0 <= i < keys@.len() ==> exists|from: int, to: int|
            0 <= from <= to <= expr@.len() && keys@[i]@ == trimmed(
                #[trigger] expr@.subrange(from, to),
            ) && expr@.take(from).to_multiset().count(',') == i && (from > 0 ==> expr@[from - 1]
                == ',') && (to < expr@.len() ==> expr@[to] == ',') && !expr@.subrange(
                from,
                to,
            ).contains(','),
{
    lemma_keys_between(expr@, ',', keys, i);
}

/// Law: a combo has one key more than the text has plus signs. Key `i` is what stands between plus
/// sign `i` and the next one, without the white space around it, however many keys there are.
pub proof fn law_parse_combo(expr: &str, r: KeyExpr, keys: Vec<String>, i: int)
    requires
        call_ensures(KeyExpr::parse, (expr,), r),
        r == KeyExpr::Combo(keys),
    ensures
        keys@.len() == expr@.to_multiset().count('+') + 1,
        0 <= i < keys@.len() ==> exists|from: int, to: int|
            0 <= from <= to <= expr@.len() && keys@[i]@ == trimmed(
                #[trigger] expr@.subrange(from, to),
            ) && expr@.take(from).to_multiset().count('+') == i && (from > 0 ==> expr@[from - 1]
                == '+') && (to < expr@.len() ==> expr@[to] == '+') && !expr@.subrange(
                from,
                to,
            ).contains('+'),
{
    lemma_keys_between(expr@, '+', keys, i);
}

proof fn lemma_keys_between(text: Seq<char>, sep: char, keys: Vec<String>, i: int)
    requires
        views(keys@) == all_trimmed(pieces(text, sep)),
    ensures
        keys@.len() == text.to_multiset().count(sep) + 1,
        0 <= i < keys@.len() ==> exists|from: int, to: int|
            0 <= from <= to <= text.len() && keys@[i]@ == trimmed(#[trigger] text.subrange(from, to))
                && text.take(from).to_multiset().count(sep) == i && (from > 0 ==> text[from - 1]
                == sep) && (to < text.len() ==> text[to] == sep) && !text.subrange(
                from,
                to,
            ).contains(sep),
{
    lemma_pieces_len(text, sep);
    law_pieces(text, sep, 0);
    assert(views(keys@).len() == keys@.len());
    if 0 <= i < keys@.len() {
        law_pieces(text, sep, i);
        assert(views(keys@)[i] == keys@[i]@);
        let (from, to) = choose|from: int, to: int|
            0 <= from <= to <= text.len() && pieces(text, sep)[i] == #[trigger] text.subrange(
                from,
                to,
            ) && text.take(from).to_multiset().count(sep) == i && (from > 0 ==> text[from - 1]
                == sep) && (to < text.len() ==> text[to] == sep) && !text.subrange(
                from,
                to,
            ).contains(sep);
        assert(keys@[i]@ == trimmed(text.subrange(from, to)));
    }
}

/// Law: the text of a single key is the key, that of a combo its keys in order with `+` between
/// neighbours, and that of a sequence its keys in order with `,` between neighbours.
pub proof fn law_to_string(expr: &KeyExpr, r: String)
    requires
        call_ensures(KeyExpr::to_string, (expr,), r),
    ensures
        match expr {
            KeyExpr::Single(key) => r@ == key@,
            KeyExpr::Combo(keys) => r@ == Seq::new(
                keys@.len(),
                |i: int| if i == 0 { keys@[i]@ } else { seq!['+'] + keys@[i]@ },
            ).flatten(),
            KeyExpr::Sequence(keys) => r@ == Seq::new(
                keys@.len(),
                |i: int| if i == 0 { keys@[i]@ } else { seq![','] + keys@[i]@ },
            ).flatten(),
        },
{
    match expr {
        KeyExpr::Single(_) => {},
        KeyExpr::Combo(keys) => {
            lemma_joined_keys(keys, '+');
        },
        KeyExpr::Sequence(keys) => {
            lemma_joined_keys(keys, ',');
        },
    }
}

proof fn lemma_joined_keys(keys: &Vec<String>, sep: char)
    ensures
        joined(views(keys@), sep) == Seq::new(
            keys@.len(),
            |i: int| if i == 0 { keys@[i]@ } else { seq![sep] + keys@[i]@ },
        ).flatten(),
{
    let texts = views(keys@);
    law_joined(texts, sep);
    assert(Seq::new(texts.len(), |i: int| if i == 0 { texts[i] } else { seq![sep] + texts[i] })
        =~= Seq::new(
        keys@.len(),
        |i: int| if i == 0 { keys@[i]@ } else { seq![sep] + keys@[i]@ },
    ));
}

/// Law: the text of what was parsed, parsed again, has the same keys in the same order.
pub proof fn law_parse_written(
    expr: &str,
    parsed: KeyExpr,
    written: String,
    text: &str,
    again: KeyExpr,
)
    requires
        call_ensures(KeyExpr::parse, (expr,), parsed),
        call_ensures(KeyExpr::to_string, (&parsed,), written),
        text@ == written@,
        call_ensures(KeyExpr::parse, (text,), again),
    ensures
        match (parsed, again) {
            (KeyExpr::Single(k), KeyExpr::Single(l)) => k@ == l@,
            (KeyExpr::Combo(ks), KeyExpr::Combo(ls)) => ks@.len() == ls@.len() && forall|i: int|
                0 <= i < ks@.len() ==> (#[trigger] ks@[i])@ == ls@[i]@,
            (KeyExpr::Sequence(ks), KeyExpr::Sequence(ls)) => ks@.len() == ls@.len() && forall|
                i: int,
            |
                0 <= i < ks@.len() ==> (#[trigger] ks@[i])@ == ls@[i]@,
            _ => false,
        },
{
    law_parse_again(expr@);
    law_key_expr_model_tells_all(parsed, again);
}

/// Law: the model of a key expression tells all of it.
pub proof fn law_key_expr_model_tells_all(a: KeyExpr, b: KeyExpr)
    requires
        a@ == b@,
    ensures
        match (a, b) {
            (KeyExpr::Single(k), KeyExpr::Single(l)) => k@ == l@,
            (KeyExpr::Combo(ks), KeyExpr::Combo(ls)) => ks@.len() == ls@.len() && forall|i: int|
                0 <= i < ks@.len() ==> (#[trigger] ks@[i])@ == ls@[i]@,
            (KeyExpr::Sequence(ks), KeyExpr::Sequence(ls)) => ks@.len() == ls@.len() && forall|
                i: int,
            |
                0 <= i < ks@.len() ==> (#[trigger] ks@[i])@ == ls@[i]@,
            _ => false,
        },
{
    match (a, b) {
        (KeyExpr::Combo(ks), KeyExpr::Combo(ls)) => {
            lemma_same_texts(ks, ls);
        },
        (KeyExpr::Sequence(ks), KeyExpr::Sequence(ls)) => {
            lemma_same_texts(ks, ls);
        },
        _ => {},
    }
}

proof fn lemma_same_texts(a: Vec<String>, b: Vec<String>)
    requires
        views(a@) == views(b@),
    ensures
        a@.len() == b@.len(),
        forall|i: int| 0 <= i < a@.len() ==> (#[trigger] a@[i])@ == b@[i]@,
{
    law_views(a@);
    law_views(b@);
    assert forall|i: int| 0 <= i < a@.len() implies (#[trigger] a@[i])@ == b@[i]@ by {
        assert(views(a@)[i] == views(b@)[i]);
    }
}

/// Law: a keyboard event of a remapped key, be it pressed or released, becomes exactly as many
/// events as the key's expression has keys. Event `i` is of the same kind, for key `i`.
pub proof fn law_expand_remapped(
    filter: &DeviceFilter,
    event: KeyboardEvent,
    key: Seq<char>,
    config: &DeviceConfig,
    expr: KeyExpr,
    r: Result<Vec<InputEvent>, TransformError>,
)
    requires
        call_ensures(DeviceFilter::expand_event, (filter, InputEvent::Keyboard(event), config), r),
        match event {
            KeyboardEvent::KeyPress { key: k } => k@ == key,
            KeyboardEvent::KeyRelease { key: k } => k@ == key,
        },
        config.remap@.contains_key(key),
        config.remap@[key] == expr@,
    ensures
        r matches Ok(out) && out@.len() == (match expr {
            KeyExpr::Single(_) => 1,
            KeyExpr::Combo(keys) => keys@.len(),
            KeyExpr::Sequence(keys) => keys@.len(),
        }) && forall|i: int|
            0 <= i < out@.len() ==> {
                let wanted = match expr {
                    KeyExpr::Single(k) => k@,
                    KeyExpr::Combo(keys) => keys@[i]@,
                    KeyExpr::Sequence(keys) => keys@[i]@,
                };
                match #[trigger] out@[i] {
                    InputEvent::Keyboard(KeyboardEvent::KeyPress { key: k }) => event is KeyPress
                        && k@ == wanted,
                    InputEvent::Keyboard(KeyboardEvent::KeyRelease { key: k }) =>
                        event is KeyRelease && k@ == wanted,
                    _ => false,
                }
            },
{
    let out = r->Ok_0;
    assert(views(out@).len() == out@.len());
    assert(views(out@) == for_each_key(event@, expr@.keys()));
    assert forall|i: int| 0 <= i < out@.len() implies (#[trigger] out@[i])@ == EventModel::Keyboard(
        event@.with_key(expr@.keys()[i]),
    ) by {
        assert(views(out@)[i] == out@[i]@);
    }
}

/// Law: what a press of a key presses, a release of it releases, key by key and in the same order.
pub proof fn law_press_and_release_alike(
    filter: &DeviceFilter,
    key: String,
    config: &DeviceConfig,
    pressed: Result<Vec<InputEvent>, TransformError>,
    released: Result<Vec<InputEvent>, TransformError>,
)
    requires
        call_ensures(
            DeviceFilter::expand_event,
            (filter, InputEvent::Keyboard(KeyboardEvent::KeyPress { key }), config),
            pressed,
        ),
        call_ensures(
            DeviceFilter::expand_event,
            (filter, InputEvent::Keyboard(KeyboardEvent::KeyRelease { key }), config),
            released,
        ),
    ensures
        pressed matches Ok(down) && released matches Ok(up) && down@.len() == up@.len() && forall|
            i: int,
        |
            0 <= i < down@.len() ==> match (#[trigger] down@[i], up@[i]) {
                (
                    InputEvent::Keyboard(KeyboardEvent::KeyPress { key: k }),
                    InputEvent::Keyboard(KeyboardEvent::KeyRelease { key: l }),
                ) => k@ == l@,
                _ => false,
            },
{
    let down = pressed->Ok_0;
    let up = released->Ok_0;
    assert(views(down@).len() == down@.len());
    assert(views(up@).len() == up@.len());
    assert forall|i: int| 0 <= i < down@.len() implies views(down@)[i] == (#[trigger] down@[i])@
        && views(up@)[i] == up@[i]@ by {}
}

/// Law: a keyboard event of a key that is not remapped is dropped exactly if the whitelist is on.
/// Otherwise it comes out alone and unchanged, and so does every event of another kind.
pub proof fn law_expand_not_remapped(
    filter: &DeviceFilter,
    event: InputEvent,
    config: &DeviceConfig,
    r: Result<Vec<InputEvent>, TransformError>,
)
    requires
        call_ensures(DeviceFilter::expand_event, (filter, event, config), r),
        match event {
            InputEvent::Keyboard(KeyboardEvent::KeyPress { key }) => !config.remap@.contains_key(
                key@,
            ),
            InputEvent::Keyboard(KeyboardEvent::KeyRelease { key }) => !config.remap@.contains_key(
                key@,
            ),
            _ => true,
        },
    ensures
        r matches Ok(out) && if event is Keyboard && config.remap_whitelist {
            out@.len() == 0
        } else {
            out@.len() == 1 && out@[0]@ == event@
        },
{
    let out = r->Ok_0;
    assert(views(out@).len() == out@.len());
    if out@.len() > 0 {
        assert(views(out@)[0] == out@[0]@);
    }
}

/// Law: what one event becomes, told by its key and the keys of the expression.
pub proof fn law_expanded(event: EventModel, config: DeviceModel)
    ensures
        ({
            let out = expanded(event, config);
            match event {
                EventModel::Keyboard(KeyModel::Press(key)) => if config.remap.contains_key(key) {
                    match config.remap[key] {
                        KeyExprModel::Single(k) => out == seq![
                            EventModel::Keyboard(KeyModel::Press(k)),
                        ],
                        KeyExprModel::Combo(ks) => out == ks.map_values(
                            |k: Seq<char>| EventModel::Keyboard(KeyModel::Press(k)),
                        ),
                        KeyExprModel::Sequence(ks) => out == ks.map_values(
                            |k: Seq<char>| EventModel::Keyboard(KeyModel::Press(k)),
                        ),
                    }
                } else {
                    out == if config.remap_whitelist {
                        Seq::empty()
                    } else {
                        seq![event]
                    }
                },
                EventModel::Keyboard(KeyModel::Release(key)) => if config.remap.contains_key(key) {
                    match config.remap[key] {
                        KeyExprModel::Single(k) => out == seq![
                            EventModel::Keyboard(KeyModel::Release(k)),
                        ],
                        KeyExprModel::Combo(ks) => out == ks.map_values(
                            |k: Seq<char>| EventModel::Keyboard(KeyModel::Release(k)),
                        ),
                        KeyExprModel::Sequence(ks) => out == ks.map_values(
                            |k: Seq<char>| EventModel::Keyboard(KeyModel::Release(k)),
                        ),
                    }
                } else {
                    out == if config.remap_whitelist {
                        Seq::empty()
                    } else {
                        seq![event]
                    }
                },
                _ => out == seq![event],
            }
        }),
{
}

/// Law: a packet keeps its device and its time. A packet of a device without configuration is
/// unchanged; any other holds, event by event and in order, what its events become.
pub proof fn law_transform_packet(
    filter: &DeviceFilter,
    packet: InputEventPacket,
    r: Result<InputEventPacket, TransformError>,
)
    requires
        call_ensures(DeviceFilter::transform_packet, (filter, packet), r),
    ensures
        r matches Ok(out) && out.device_id@ == packet.device_id@ && out.timestamp
            == packet.timestamp && views(out.events@) == (if filter@.contains_key(
            packet.device_id@,
        ) {
            views(packet.events@).map_values(
                |e: EventModel| expanded(e, filter@[packet.device_id@]),
            ).flatten()
        } else {
            views(packet.events@)
        }),
{
    if filter@.contains_key(packet.device_id@) {
        lemma_transformed_flat(views(packet.events@), filter@[packet.device_id@]);
    }
}

proof fn lemma_transformed_flat(events: Seq<EventModel>, config: DeviceModel)
    ensures
        transformed(events, config) == events.map_values(
            |e: EventModel| expanded(e, config),
        ).flatten(),
    decreases events.len(),
{
    let f = |e: EventModel| expanded(e, config);
    let parts = events.map_values(f);
    parts.lemma_flatten_and_flatten_alt_are_equivalent();
    if events.len() > 0 {
        let init = events.drop_last();
        lemma_transformed_flat(init, config);
        init.map_values(f).lemma_flatten_and_flatten_alt_are_equivalent();
        assert(parts.drop_last() =~= init.map_values(f));
        assert(parts.last() == expanded(events.last(), config));
    }
}

/// Law: a filter knows exactly the devices of the configuration it was made from, and tells for each
/// the backend and the type that the configuration gives it.
pub proof fn law_filter_tells_configuration(
    config: &AppConfig,
    filter: &DeviceFilter,
    device_id: &str,
    known: bool,
    backend: Option<&str>,
    kind: Option<&str>,
)
    requires
        call_ensures(DeviceFilter::new, (config,), *filter),
        call_ensures(DeviceFilter::has_device_config, (filter, device_id), known),
        call_ensures(DeviceFilter::get_device_backend, (filter, device_id), backend),
        call_ensures(DeviceFilter::get_device_type, (filter, device_id), kind),
    ensures
        filter@ == config.device@,
        known == config.device@.contains_key(device_id@),
        backend is Some <==> known,
        kind is Some <==> known,
        known ==> backend->0@ == config.device@[device_id@].map_backend,
        known ==> kind->0@ == config.device@[device_id@].device_type,
{
}

/// Law: the model of a device configuration tells all of it that is looked at.
pub proof fn law_config_model_tells_all(config: DeviceConfig)
    ensures
        config@.map_backend == config.map_backend@,
        config@.device_type == config.device_type@,
        config@.remap == config.remap@,
        config@.remap_whitelist == config.remap_whitelist,
{
}

/// Law: a standard key code is three letters that name the kind of event and an underscore, whatever
/// follows.
pub proof fn law_standard_evdev_key(key: &str, r: bool)
    requires
        call_ensures(DeviceFilter::is_standard_evdev_key, (key,), r),
    ensures
        r <==> key@.len() >= 4 && key@[3] == '_' && ((key@[0] == 'K' && key@[1] == 'E' && key@[2]
            == 'Y') || (key@[0] == 'B' && key@[1] == 'T' && key@[2] == 'N') || (key@[0] == 'A'
            && key@[1] == 'B' && key@[2] == 'S') || (key@[0] == 'R' && key@[1] == 'E' && key@[2]
            == 'L')),
{
    reveal_strlit("KEY_");
    reveal_strlit("BTN_");
    reveal_strlit("ABS_");
    reveal_strlit("REL_");
    lemma_prefix_of_four("KEY_"@, key@);
    lemma_prefix_of_four("BTN_"@, key@);
    lemma_prefix_of_four("ABS_"@, key@);
    lemma_prefix_of_four("REL_"@, key@);
}

proof fn lemma_prefix_of_four(prefix: Seq<char>, s: Seq<char>)
    requires
        prefix.len() == 4,
    ensures
        prefix.is_prefix_of(s) <==> s.len() >= 4 && s[0] == prefix[0] && s[1] == prefix[1] && s[2]
            == prefix[2] && s[3] == prefix[3],
{
    if s.len() >= 4 {
        let head = s.subrange(0, 4);
        assert(head[0] == s[0] && head[1] == s[1] && head[2] == s[2] && head[3] == s[3]);
        if s[0] == prefix[0] && s[1] == prefix[1] && s[2] == prefix[2] && s[3] == prefix[3] {
            assert(head =~= prefix);
        }
    }
}

/// Law: a copy of a key expression has the same keys, and a copy of a filter knows the same devices.
pub proof fn law_copies(expr: &KeyExpr, e: KeyExpr, filter: &DeviceFilter, f: DeviceFilter)
    requires
        call_ensures(KeyExpr::clone, (expr,), e),
        call_ensures(DeviceFilter::clone, (filter,), f),
    ensures
        match (*expr, e) {
            (KeyExpr::Single(k), KeyExpr::Single(l)) => k@ == l@,
            (KeyExpr::Combo(ks), KeyExpr::Combo(ls)) => ks@.len() == ls@.len() && forall|i: int|
                0 <= i < ks@.len() ==> (#[trigger] ks@[i])@ == ls@[i]@,
            (KeyExpr::Sequence(ks), KeyExpr::Sequence(ls)) => ks@.len() == ls@.len() && forall|
                i: int,
            |
                0 <= i < ks@.len() ==> (#[trigger] ks@[i])@ == ls@[i]@,
            _ => false,
        },
        f@ == filter@,
{
    law_key_expr_model_tells_all(*expr, e);
}

} // verus!

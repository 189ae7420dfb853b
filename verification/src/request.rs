//! What is asked of a model: the bodies of requests.

use crate::config::ModelCfg;
use crate::json;
use crate::json::json_quoted;
use crate::table::in_order;
use crate::table::keys_in;
use crate::table::lemma_at_most_one;
use crate::table::lemma_put_mapped;
use crate::table::lemma_row;
use crate::table::lookup;
use crate::table::put;
use crate::table::put_sets_one_key;
use crate::table::row_of;
use crate::table::text_rows;
use crate::table::Table;
use crate::text;
use crate::text::decimal;
use crate::text::joined;
use crate::text::pairs;
use crate::text::texts;
use vstd::prelude::*;

verus! {

/// The fields of a JSON object: each name with the JSON text of its value.
pub type Fields = Seq<(Seq<char>, Seq<char>)>;

// ---------------------------------------------------------------------------
// Objects
// ---------------------------------------------------------------------------

/// The fields of `base` with those of `over` set one after the other.
pub open spec fn set_all(base: Fields, over: Fields) -> Fields
    decreases over.len(),
{
    if over.len() == 0 {
        base
    } else {
        put(set_all(base, over.drop_last()), over.last().0, over.last().1)
    }
}

/// One field as it stands in an object.
pub open spec fn member_text(p: (Seq<char>, Seq<char>)) -> Seq<char> {
    json_quoted(p.0) + ":"@ + p.1
}

/// The JSON text of an object.
pub open spec fn object_text(fields: Fields) -> Seq<char> {
    "{"@ + joined(fields.map_values(|p: (Seq<char>, Seq<char>)| member_text(p)), ","@) + "}"@
}

fn set(t: &mut Table<String>, name: &str, value: String)
    requires
        old(t).wf(),
    ensures
        final(t).wf(),
        text_rows(final(t)@) == put(text_rows(old(t)@), name@, value@),
{
    proof {
        lemma_put_mapped(t@, |s: String| s@, name@, value);
    }
    t.insert(name.to_string(), value);
}

fn set_fields(t: &mut Table<String>, over: &Table<String>)
    requires
        old(t).wf(),
    ensures
        final(t).wf(),
        text_rows(final(t)@) == set_all(text_rows(old(t)@), text_rows(over@)),
{
    let ghost all = text_rows(over@);
    let ghost base = text_rows(t@);
    let mut i: usize = 0;
    assert(all.take(0) =~= Seq::<(Seq<char>, Seq<char>)>::empty());
    while i < over.items.len()
        invariant
            i <= over.items@.len(),
            all == text_rows(over@),
            all.len() == over.items@.len(),
            t.wf(),
            text_rows(t@) == set_all(base, all.take(i as int)),
        decreases over.items@.len() - i,
    {
        proof {
            assert(all.take(i + 1).drop_last() =~= all.take(i as int));
            assert(over@[i as int] == (over.items@[i as int].0@, over.items@[i as int].1));
            assert(all.take(i + 1).last() == (over.items@[i as int].0@, over.items@[i as int].1@));
        }
        let value = over.items[i].1.clone();
        set(t, &over.items[i].0, value);
        i += 1;
    }
    assert(all.take(all.len() as int) =~= all);
}

fn object(t: &Table<String>) -> (r: String)
    ensures
        r@ == object_text(text_rows(t@)),
{
    let ghost all = text_rows(t@).map_values(|p: (Seq<char>, Seq<char>)| member_text(p));
    let mut members: Vec<String> = Vec::new();
    let mut i: usize = 0;
    while i < t.items.len()
        invariant
            i <= t.items@.len(),
            all == text_rows(t@).map_values(|p: (Seq<char>, Seq<char>)| member_text(p)),
            all.len() == t.items@.len(),
            members@.len() == i,
            forall|k: int| 0 <= k < i ==> (#[trigger] members@[k])@ == all[k],
        decreases t.items@.len() - i,
    {
        let mut m = json::quote(&t.items[i].0);
        m.append(":");
        m.append(&t.items[i].1);
        proof {
            assert(t@[i as int] == (t.items@[i as int].0@, t.items@[i as int].1));
            assert(text_rows(t@)[i as int] == (t.items@[i as int].0@, t.items@[i as int].1@));
        }
        members.push(m);
        i += 1;
    }
    assert(texts(members@) =~= all);
    let inner = text::join(&members, ",");
    let mut r = "{".to_string();
    r.append(&inner);
    r.append("}");
    r
}

// ---------------------------------------------------------------------------
// Messages
// ---------------------------------------------------------------------------

/// An image, given as its type and its bytes in base64.
pub open spec fn image_part(image: (Seq<char>, Seq<char>)) -> Seq<char> {
    "{\"image_url\":{\"url\":"@ + json_quoted("data:"@ + image.0 + ";base64,"@ + image.1)
        + "},\"type\":\"image_url\"}"@
}

/// The parts of a message with images: the text stands first, so that a
/// provider's prefix cache keeps matching turns without images.
pub open spec fn parts(user: Seq<char>, images: Seq<(Seq<char>, Seq<char>)>) -> Seq<Seq<char>> {
    seq!["{\"text\":"@ + json_quoted(user) + ",\"type\":\"text\"}"@] + images.map_values(
        |i: (Seq<char>, Seq<char>)| image_part(i),
    )
}

/// What the user's message holds.
pub open spec fn content(user: Seq<char>, images: Seq<(Seq<char>, Seq<char>)>) -> Seq<char> {
    if images.len() == 0 {
        json_quoted(user)
    } else {
        "["@ + joined(parts(user, images), ","@) + "]"@
    }
}

/// A message, given its content as JSON.
pub open spec fn message(role: Seq<char>, content: Seq<char>) -> Seq<char> {
    "{\"content\":"@ + content + ",\"role\":\""@ + role + "\"}"@
}

fn write_content(user: &str, images: &Vec<(String, String)>) -> (r: String)
    ensures
        r@ == content(user@, pairs(images@)),
{
    let quoted = json::quote(user);
    if images.len() == 0 {
        return quoted;
    }
    let ghost all = parts(user@, pairs(images@));
    let mut first = "{\"text\":".to_string();
    first.append(&quoted);
    first.append(",\"type\":\"text\"}");
    let mut v: Vec<String> = Vec::new();
    v.push(first);
    let mut i: usize = 0;
    while i < images.len()
        invariant
            i <= images@.len(),
            all == parts(user@, pairs(images@)),
            all.len() == images@.len() + 1,
            v@.len() == i + 1,
            forall|k: int| 0 <= k <= i ==> (#[trigger] v@[k])@ == all[k],
        decreases images@.len() - i,
    {
        let mut url = "data:".to_string();
        url.append(&images[i].0);
        url.append(";base64,");
        url.append(&images[i].1);
        let q = json::quote(&url);
        let mut part = "{\"image_url\":{\"url\":".to_string();
        part.append(&q);
        part.append("},\"type\":\"image_url\"}");
        proof {
            assert(pairs(images@)[i as int] == (images@[i as int].0@, images@[i as int].1@));
            assert(all[i + 1] == image_part(pairs(images@)[i as int]));
        }
        v.push(part);
        i += 1;
    }
    assert(texts(v@) =~= all);
    let inner = text::join(&v, ",");
    let mut r = "[".to_string();
    r.append(&inner);
    r.append("]");
    r
}

fn write_message(role: &str, content: &str) -> (r: String)
    ensures
        r@ == message(role@, content@),
{
    let mut r = "{\"content\":".to_string();
    r.append(content);
    r.append(",\"role\":\"");
    r.append(role);
    r.append("\"}");
    r
}

// ---------------------------------------------------------------------------
// Bodies
// ---------------------------------------------------------------------------

/// What every request says.
pub open spec fn common(model: Seq<char>, max_tokens: u32, messages: Seq<char>) -> Fields {
    put(
        put(
            put(Seq::empty(), "model"@, json_quoted(model)),
            "max_tokens"@,
            decimal(max_tokens as nat),
        ),
        "messages"@,
        "["@ + messages + "]"@,
    )
}

/// The fields with a temperature, where there is one. Some models reject the
/// field outright, so it is left out otherwise.
pub open spec fn heated(fields: Fields, temperature: Option<Seq<char>>) -> Fields {
    match temperature {
        Some(t) => put(fields, "temperature"@, t),
        None => fields,
    }
}

/// The fields with a provider's own merged over them.
pub open spec fn overlaid(fields: Fields, over: Option<Fields>) -> Fields {
    match over {
        Some(o) => set_all(fields, o),
        None => fields,
    }
}

/// The fields that a model has for every request.
pub open spec fn extra_of(m: ModelCfg) -> Option<Fields> {
    match m.extra_body {
        Some(t) => Some(text_rows(t@)),
        None => None,
    }
}

/// The fields that a model has for deliberation.
pub open spec fn kwargs_of(m: ModelCfg) -> Option<Fields> {
    match m.think {
        Some(t) => Some(text_rows(t.kwargs@)),
        None => None,
    }
}

/// The fields of a streaming request before the provider's own are merged in.
pub open spec fn stream_fields(
    m: ModelCfg,
    system: Seq<char>,
    user: Seq<char>,
    images: Seq<(Seq<char>, Seq<char>)>,
) -> Fields {
    heated(
        put(
            put(
                common(
                    m.model@,
                    m.max_tokens,
                    message("system"@, json_quoted(system)) + ","@ + message(
                        "user"@,
                        content(user, images),
                    ),
                ),
                "stream"@,
                "true"@,
            ),
            "stream_options"@,
            "{\"include_usage\":true}"@,
        ),
        text::opt_text(m.temperature),
    )
}

/// The fields of a streaming request.
pub open spec fn request_fields(
    m: ModelCfg,
    system: Seq<char>,
    user: Seq<char>,
    images: Seq<(Seq<char>, Seq<char>)>,
    think: bool,
) -> Fields {
    overlaid(
        overlaid(stream_fields(m, system, user, images), extra_of(m)),
        if think {
            kwargs_of(m)
        } else {
            None
        },
    )
}

/// The fields of a request that is answered in one piece. It is not sampled:
/// the temperature is zero wherever the model takes one.
pub open spec fn completion_fields(m: ModelCfg, prompt: Seq<char>, max_tokens: u32) -> Fields {
    overlaid(
        heated(
            common(m.model@, max_tokens, message("user"@, json_quoted(prompt))),
            match m.temperature {
                Some(_) => Some("0.0"@),
                None => None,
            },
        ),
        extra_of(m),
    )
}

fn write_common(model: &str, max_tokens: u32, messages: &str) -> (t: Table<String>)
    ensures
        t.wf(),
        text_rows(t@) == common(model@, max_tokens, messages@),
{
    let mut t: Table<String> = Table::new();
    assert(text_rows(t@) =~= Seq::<(Seq<char>, Seq<char>)>::empty());
    set(&mut t, "model", json::quote(model));
    set(&mut t, "max_tokens", text::dec(max_tokens as u64));
    let mut list = "[".to_string();
    list.append(messages);
    list.append("]");
    set(&mut t, "messages", list);
    t
}

/// The body of a request whose answer is streamed. `images` are (type, base64)
/// pairs; with `think` the model's fields for deliberation are merged last.
pub fn request_body(
    m: &ModelCfg,
    system: &str,
    user: &str,
    images: &Vec<(String, String)>,
    think: bool,
) -> (r: String)
    ensures
        r@ == object_text(request_fields(*m, system@, user@, pairs(images@), think)),
{
    let mut messages = write_message("system", &json::quote(system));
    messages.append(",");
    let said = write_content(user, images);
    messages.append(&write_message("user", &said));
    let mut t = write_common(&m.model, m.max_tokens, &messages);
    set(&mut t, "stream", "true".to_string());
    set(&mut t, "stream_options", "{\"include_usage\":true}".to_string());
    match &m.temperature {
        Some(x) => {
            set(&mut t, "temperature", x.clone());
        },
        None => {},
    }
    match &m.extra_body {
        Some(extra) => {
            set_fields(&mut t, extra);
        },
        None => {},
    }
    if think {
        match &m.think {
            Some(k) => {
                set_fields(&mut t, &k.kwargs);
            },
            None => {},
        }
    }
    object(&t)
}

/// The body of a request that is answered in one piece.
pub fn completion_body(m: &ModelCfg, prompt: &str, max_tokens: u32) -> (r: String)
    ensures
        r@ == object_text(completion_fields(*m, prompt@, max_tokens)),
{
    let messages = write_message("user", &json::quote(prompt));
    let mut t = write_common(&m.model, max_tokens, &messages);
    match &m.temperature {
        Some(_) => {
            set(&mut t, "temperature", "0.0".to_string());
        },
        None => {},
    }
    match &m.extra_body {
        Some(extra) => {
            set_fields(&mut t, extra);
        },
        None => {},
    }
    object(&t)
}

// ---------------------------------------------------------------------------
// Laws
// ---------------------------------------------------------------------------

/// What a field holds after others were set over it: theirs where they have
/// it, else its own.
pub proof fn set_fields_win(base: Fields, over: Fields, name: Seq<char>)
    requires
        in_order(keys_in(base)),
        in_order(keys_in(over)),
    ensures
        in_order(keys_in(set_all(base, over))),
        lookup(set_all(base, over), name) == (if lookup(over, name) is Some {
            lookup(over, name)
        } else {
            lookup(base, name)
        }),
    decreases over.len(),
{
    lemma_row(over, name, 0);
    if over.len() > 0 {
        let rest = over.drop_last();
        assert forall|i: int, j: int| 0 <= i < j < rest.len() implies crate::table::precedes(
            #[trigger] keys_in(rest)[i],
            #[trigger] keys_in(rest)[j],
        ) by {
            assert(keys_in(rest)[i] == keys_in(over)[i]);
            assert(keys_in(rest)[j] == keys_in(over)[j]);
        }
        set_fields_win(base, rest, name);
        put_sets_one_key(set_all(base, rest), over.last().0, over.last().1);
        lemma_row(rest, name, 0);
        lemma_at_most_one(over, name);
        let n = over.len() - 1;
        if over.last().0 == name {
            assert(over[n].0 == name);
        } else {
            match row_of(over, name, 0) {
                Some(i) => {
                    assert(rest[i] == over[i]);
                },
                None => {
                    match row_of(rest, name, 0) {
                        Some(i) => {
                            assert(rest[i] == over[i]);
                        },
                        None => {},
                    }
                },
            }
        }
    }
}

proof fn lemma_heated(fields: Fields, temperature: Option<Seq<char>>)
    requires
        in_order(keys_in(fields)),
    ensures
        in_order(keys_in(heated(fields, temperature))),
{
    if temperature is Some {
        put_sets_one_key(fields, "temperature"@, temperature->0);
    }
}

proof fn lemma_stream_fields(
    m: ModelCfg,
    system: Seq<char>,
    user: Seq<char>,
    images: Seq<(Seq<char>, Seq<char>)>,
)
    ensures
        in_order(keys_in(stream_fields(m, system, user, images))),
{
    let none = Seq::<(Seq<char>, Seq<char>)>::empty();
    let a = put(none, "model"@, json_quoted(m.model@));
    let b = put(a, "max_tokens"@, decimal(m.max_tokens as nat));
    let list = "["@ + (message("system"@, json_quoted(system)) + ","@ + message(
        "user"@,
        content(user, images),
    )) + "]"@;
    let c = put(b, "messages"@, list);
    let d = put(c, "stream"@, "true"@);
    put_sets_one_key(none, "model"@, json_quoted(m.model@));
    put_sets_one_key(a, "max_tokens"@, decimal(m.max_tokens as nat));
    put_sets_one_key(b, "messages"@, list);
    put_sets_one_key(c, "stream"@, "true"@);
    put_sets_one_key(d, "stream_options"@, "{\"include_usage\":true}"@);
    lemma_heated(
        put(d, "stream_options"@, "{\"include_usage\":true}"@),
        text::opt_text(m.temperature),
    );
}

/// Who decides what a field of a request holds: deliberation while it is on,
/// then the model's own extra fields, then the request itself.
pub proof fn provider_fields_win(
    m: ModelCfg,
    system: Seq<char>,
    user: Seq<char>,
    images: Seq<(Seq<char>, Seq<char>)>,
    think: bool,
    name: Seq<char>,
)
    requires
        extra_of(m) is Some ==> in_order(keys_in(extra_of(m)->0)),
        kwargs_of(m) is Some ==> in_order(keys_in(kwargs_of(m)->0)),
    ensures
        lookup(request_fields(m, system, user, images, think), name) == (if think && kwargs_of(
            m,
        ) is Some && lookup(kwargs_of(m)->0, name) is Some {
            lookup(kwargs_of(m)->0, name)
        } else if extra_of(m) is Some && lookup(extra_of(m)->0, name) is Some {
            lookup(extra_of(m)->0, name)
        } else {
            lookup(stream_fields(m, system, user, images), name)
        }),
{
    let own = stream_fields(m, system, user, images);
    lemma_stream_fields(m, system, user, images);
    if extra_of(m) is Some {
        set_fields_win(own, extra_of(m)->0, name);
    }
    if think && kwargs_of(m) is Some {
        set_fields_win(overlaid(own, extra_of(m)), kwargs_of(m)->0, name);
    }
}

proof fn lemma_common(model: Seq<char>, max_tokens: u32, messages: Seq<char>)
    ensures
        ({
            let f = common(model, max_tokens, messages);
            &&& in_order(keys_in(f))
            &&& lookup(f, "model"@) == Some(json_quoted(model))
            &&& lookup(f, "max_tokens"@) == Some(decimal(max_tokens as nat))
            &&& lookup(f, "messages"@) == Some(seq!['['] + messages + seq![']'])
            &&& forall|name: Seq<char>|
                name != "model"@ && name != "max_tokens"@ && name != "messages"@
                    ==> #[trigger] lookup(f, name) is None
        }),
{
    reveal_strlit("model");
    reveal_strlit("max_tokens");
    reveal_strlit("messages");
    reveal_strlit("[");
    reveal_strlit("]");
    assert("model"@.len() == 5 && "max_tokens"@.len() == 10 && "messages"@.len() == 8);
    let none = Seq::<(Seq<char>, Seq<char>)>::empty();
    let a = put(none, "model"@, json_quoted(model));
    let b = put(a, "max_tokens"@, decimal(max_tokens as nat));
    put_sets_one_key(none, "model"@, json_quoted(model));
    put_sets_one_key(a, "max_tokens"@, decimal(max_tokens as nat));
    put_sets_one_key(b, "messages"@, "["@ + messages + "]"@);
    assert("["@ =~= seq!['[']);
    assert("]"@ =~= seq![']']);
}

/// What a streaming request says: the model and its limit, the system prompt and
/// then the user's message, that the answer is to be streamed with its usage, and
/// the temperature exactly where the model has one. It says nothing else.
pub proof fn a_request_says_what_is_asked(
    m: ModelCfg,
    system: Seq<char>,
    user: Seq<char>,
    images: Seq<(Seq<char>, Seq<char>)>,
    name: Seq<char>,
)
    ensures
        ({
            let f = stream_fields(m, system, user, images);
            let first = "{\"content\":"@ + json_quoted(system) + ",\"role\":\"system\"}"@;
            let second = "{\"content\":"@ + content(user, images) + ",\"role\":\"user\"}"@;
            &&& lookup(f, "model"@) == Some(json_quoted(m.model@))
            &&& lookup(f, "max_tokens"@) == Some(decimal(m.max_tokens as nat))
            &&& lookup(f, "messages"@) == Some(seq!['['] + first + seq![','] + second + seq![']'])
            &&& lookup(f, "stream"@) == Some("true"@)
            &&& lookup(f, "stream_options"@) == Some("{\"include_usage\":true}"@)
            &&& lookup(f, "temperature"@) == text::opt_text(m.temperature)
            &&& name != "model"@ && name != "max_tokens"@ && name != "messages"@ && name
                != "stream"@ && name != "stream_options"@ && name != "temperature"@ ==> lookup(
                f,
                name,
            ) is None
        }),
{
    reveal_strlit("model");
    reveal_strlit("max_tokens");
    reveal_strlit("messages");
    reveal_strlit("stream");
    reveal_strlit("stream_options");
    reveal_strlit("temperature");
    assert("model"@.len() == 5 && "max_tokens"@.len() == 10 && "messages"@.len() == 8
        && "stream"@.len() == 6 && "stream_options"@.len() == 14 && "temperature"@.len() == 11);
    let list = message("system"@, json_quoted(system)) + ","@ + message(
        "user"@,
        content(user, images),
    );
    lemma_common(m.model@, m.max_tokens, list);
    let c = common(m.model@, m.max_tokens, list);
    put_sets_one_key(c, "stream"@, "true"@);
    let d = put(c, "stream"@, "true"@);
    put_sets_one_key(d, "stream_options"@, "{\"include_usage\":true}"@);
    let e = put(d, "stream_options"@, "{\"include_usage\":true}"@);
    if m.temperature is Some {
        put_sets_one_key(e, "temperature"@, m.temperature->0@);
    }
    lemma_messages(system, content(user, images));
}

proof fn lemma_messages(system: Seq<char>, said: Seq<char>)
    ensures
        ({
            let first = "{\"content\":"@ + json_quoted(system) + ",\"role\":\"system\"}"@;
            let second = "{\"content\":"@ + said + ",\"role\":\"user\"}"@;
            let list = message("system"@, json_quoted(system)) + ","@ + message("user"@, said);
            &&& message("user"@, said) == second
            &&& seq!['['] + list + seq![']'] == seq!['['] + first + seq![','] + second + seq![']']
        }),
{
    reveal_strlit(",\"role\":\"");
    reveal_strlit("\"}");
    reveal_strlit("system");
    reveal_strlit("user");
    reveal_strlit(",\"role\":\"system\"}");
    reveal_strlit(",\"role\":\"user\"}");
    reveal_strlit(",");
    let first = "{\"content\":"@ + json_quoted(system) + ",\"role\":\"system\"}"@;
    let second = "{\"content\":"@ + said + ",\"role\":\"user\"}"@;
    assert(",\"role\":\""@ + "system"@ + "\"}"@ =~= ",\"role\":\"system\"}"@);
    assert(",\"role\":\""@ + "user"@ + "\"}"@ =~= ",\"role\":\"user\"}"@);
    assert(message("system"@, json_quoted(system)) =~= "{\"content\":"@ + json_quoted(system) + (
    ",\"role\":\""@ + "system"@ + "\"}"@));
    assert(message("user"@, said) =~= "{\"content\":"@ + said + (",\"role\":\""@ + "user"@
        + "\"}"@));
    let list = message("system"@, json_quoted(system)) + ","@ + message("user"@, said);
    assert(seq!['['] + list + seq![']'] =~= seq!['['] + first + seq![','] + second + seq![']']);
}

/// What a request for one answer says: the model, the limit given, and the prompt
/// as the only message. It is not sampled: the temperature is zero where the model
/// has one, and not named where it has none. The model's own fields win.
pub proof fn a_completion_says_what_is_asked(
    m: ModelCfg,
    prompt: Seq<char>,
    max_tokens: u32,
    name: Seq<char>,
)
    requires
        extra_of(m) is Some ==> in_order(keys_in(extra_of(m)->0)),
    ensures
        ({
            let f = completion_fields(m, prompt, max_tokens);
            let only = "{\"content\":"@ + json_quoted(prompt) + ",\"role\":\"user\"}"@;
            let set = if extra_of(m) is Some {
                lookup(extra_of(m)->0, name)
            } else {
                None
            };
            &&& set is Some ==> lookup(f, name) == set
            &&& set is None && name == "model"@ ==> lookup(f, name) == Some(json_quoted(m.model@))
            &&& set is None && name == "max_tokens"@ ==> lookup(f, name) == Some(
                decimal(max_tokens as nat),
            )
            &&& set is None && name == "messages"@ ==> lookup(f, name) == Some(
                seq!['['] + only + seq![']'],
            )
            &&& set is None && name == "temperature"@ && m.temperature is Some ==> lookup(f, name)
                == Some("0.0"@)
            &&& set is None && name == "temperature"@ && m.temperature is None ==> lookup(f, name)
                is None
            &&& set is None && name == "stream"@ ==> lookup(f, name) is None
        }),
{
    reveal_strlit("model");
    reveal_strlit("max_tokens");
    reveal_strlit("messages");
    reveal_strlit("stream");
    reveal_strlit("temperature");
    assert("model"@.len() == 5 && "max_tokens"@.len() == 10 && "messages"@.len() == 8
        && "stream"@.len() == 6 && "temperature"@.len() == 11);
    let said = message("user"@, json_quoted(prompt));
    lemma_common(m.model@, max_tokens, said);
    lemma_messages(prompt, json_quoted(prompt));
    let c = common(m.model@, max_tokens, said);
    let t: Option<Seq<char>> = match m.temperature {
        Some(_) => Some("0.0"@),
        None => None,
    };
    if m.temperature is Some {
        put_sets_one_key(c, "temperature"@, "0.0"@);
    }
    lemma_heated(c, t);
    if extra_of(m) is Some {
        set_fields_win(heated(c, t), extra_of(m)->0, name);
    }
}

/// A message without images is its text alone; with images the text comes first,
/// then every image in its order, each with its own type and bytes.
pub proof fn every_image_is_sent(user: Seq<char>, images: Seq<(Seq<char>, Seq<char>)>, i: int)
    ensures
        content(user, Seq::empty()) == json_quoted(user),
        images.len() > 0 ==> content(user, images) == seq!['['] + joined(parts(user, images), ","@)
            + seq![']'],
        parts(user, images).len() == images.len() + 1,
        parts(user, images)[0] == "{\"text\":"@ + json_quoted(user) + ",\"type\":\"text\"}"@,
        0 <= i < images.len() ==> parts(user, images)[i + 1] == "{\"image_url\":{\"url\":"@
            + json_quoted("data:"@ + images[i].0 + ";base64,"@ + images[i].1)
            + "},\"type\":\"image_url\"}"@,
{
    reveal_strlit("[");
    reveal_strlit("]");
    assert("["@ =~= seq!['[']);
    assert("]"@ =~= seq![']']);
}

/// Every field of an object stands in its text by its name and value.
pub proof fn every_field_is_written(fields: Fields, i: int)
    requires
        0 <= i < fields.len(),
    ensures
        ({
            let members = fields.map_values(|p: (Seq<char>, Seq<char>)| member_text(p));
            &&& object_text(fields) == seq!['{'] + joined(members, ","@) + seq!['}']
            &&& members.len() == fields.len()
            &&& members[i] == json_quoted(fields[i].0) + seq![':'] + fields[i].1
        }),
{
    reveal_strlit("{");
    reveal_strlit("}");
    reveal_strlit(":");
    assert("{"@ =~= seq!['{']);
    assert("}"@ =~= seq!['}']);
    assert(":"@ =~= seq![':']);
}

} // verus!

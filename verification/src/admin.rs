//! Administrative rules: stream keys, camera and user changes as SQL, who may be deleted,
//! and the RTMP port setting.
use vstd::prelude::*;
use crate::auth::bcrypt_verdict;
use crate::models::{CreateCamera, CreateUser, UpdateCamera, UpdateUser};
use crate::text::{
    chars_equal, chars_of, decimal_int, escape_quotes, escape_sql, join_strings, join_with,
    lemma_escaped_literal_reads_back, parse_u16, parsed_u16, push_decimal_i64, push_str,
    read_quoted, string_of, strip_dashes, without_dashes,
};

verus! {

/// A lowercase hexadecimal digit.
pub open spec fn is_lower_hex(c: char) -> bool {
    ('0' <= c && c <= '9') || ('a' <= c && c <= 'f')
}

/// One of `8`, `9`, `a`, `b`: the digit that carries the variant of an RFC 9562 UUID.
pub open spec fn is_variant_digit(c: char) -> bool {
    c == '8' || c == '9' || c == 'a' || c == 'b'
}

/// The text of a random (version 4) UUID in hyphenated form: 36 characters, `-` at
/// positions 8, 13, 18 and 23 and lowercase hexadecimal digits elsewhere, the version digit
/// `4` at position 14 and a variant digit at position 19.
pub open spec fn uuid_text(s: Seq<char>) -> bool {
    &&& s.len() == 36
    &&& forall|i: int|
        0 <= i < 36 ==> if i == 8 || i == 13 || i == 18 || i == 23 {
            #[trigger] s[i] == '-'
        } else {
            is_lower_hex(s[i])
        }
    &&& s[14] == '4'
    &&& is_variant_digit(s[19])
}

/// A stream key: the 32 lowercase hexadecimal digits of a random (version 4) UUID, with
/// the version digit `4` at position 12 and a variant digit at position 16.
pub open spec fn stream_key_text(k: Seq<char>) -> bool {
    &&& k.len() == 32
    &&& forall|i: int| 0 <= i < 32 ==> is_lower_hex(#[trigger] k[i])
    &&& k[12] == '4'
    &&& is_variant_digit(k[16])
}

/// `uuid::Uuid::new_v4().to_string()`: a random version-4 UUID in hyphenated lowercase
/// form. `new_v4` masks random bits so that the version digit is `4` and the variant digit
/// one of `8`, `9`, `a`, `b`; what holds of every value it gives is this shape,
/// `uuid_text`; which value comes back is left open.
#[verifier::external_body]
fn new_uuid_text() -> (s: String)
    ensures
        uuid_text(s@),
{
    uuid::Uuid::new_v4().to_string()
}

proof fn lemma_filter_keeps_all(s: Seq<char>)
    requires
        forall|i: int| 0 <= i < s.len() ==> #[trigger] s[i] != '-',
    ensures
        without_dashes(s) == s,
    decreases s.len(),
{
    reveal(Seq::filter);
    if s.len() > 0 {
        lemma_filter_keeps_all(s.drop_last());
        assert(s.drop_last().push(s.last()) =~= s);
    }
}

/// Stream-key law: the hyphenated text of a random UUID without its hyphens is a stream
/// key, 32 lowercase hexadecimal digits that keep the version and variant digits.
pub proof fn lemma_uuid_without_dashes_is_key(u: Seq<char>)
    requires
        uuid_text(u),
    ensures
        stream_key_text(without_dashes(u)),
{
    let p = |c: char| c != '-';
    let a = u.subrange(0, 8);
    let b = u.subrange(9, 13);
    let c = u.subrange(14, 18);
    let d = u.subrange(19, 23);
    let e = u.subrange(24, 36);
    let h = seq!['-'];
    assert(u =~= a + h + b + h + c + h + d + h + e) by {
        assert(u[8] == '-');
        assert(u[13] == '-');
        assert(u[18] == '-');
        assert(u[23] == '-');
    }
    assert forall|i: int| 0 <= i < a.len() implies #[trigger] a[i] != '-' by { assert(is_lower_hex(u[i])); }
    assert forall|i: int| 0 <= i < b.len() implies #[trigger] b[i] != '-' by { assert(is_lower_hex(u[9 + i])); }
    assert forall|i: int| 0 <= i < c.len() implies #[trigger] c[i] != '-' by { assert(is_lower_hex(u[14 + i])); }
    assert forall|i: int| 0 <= i < d.len() implies #[trigger] d[i] != '-' by { assert(is_lower_hex(u[19 + i])); }
    assert forall|i: int| 0 <= i < e.len() implies #[trigger] e[i] != '-' by { assert(is_lower_hex(u[24 + i])); }
    lemma_filter_keeps_all(a);
    lemma_filter_keeps_all(b);
    lemma_filter_keeps_all(c);
    lemma_filter_keeps_all(d);
    lemma_filter_keeps_all(e);
    reveal_with_fuel(Seq::filter, 2);
    assert(without_dashes(h) =~= Seq::<char>::empty()) by {
        assert(h.drop_last() =~= Seq::<char>::empty());
    }
    Seq::filter_distributes_over_add(a + h + b + h + c + h + d, h + e, p);
    Seq::filter_distributes_over_add(h, e, p);
    Seq::filter_distributes_over_add(a + h + b + h + c + h, d, p);
    Seq::filter_distributes_over_add(a + h + b + h + c, h, p);
    Seq::filter_distributes_over_add(a + h + b + h, c, p);
    Seq::filter_distributes_over_add(a + h + b, h, p);
    Seq::filter_distributes_over_add(a + h, b, p);
    Seq::filter_distributes_over_add(a, h, p);
    assert(a + h + b + h + c + h + d + h + e =~= (a + h + b + h + c + h + d) + (h + e));
    let k = without_dashes(u);
    assert(k =~= a + b + c + d + e);
    assert(k[12] == u[14]);
    assert(k[16] == u[19]);
    assert forall|i: int| 0 <= i < 32 implies is_lower_hex(#[trigger] k[i]) by {
        if i < 8 {
            assert(k[i] == u[i]);
        } else if i < 12 {
            assert(k[i] == u[i + 1]);
        } else if i < 16 {
            assert(k[i] == u[i + 2]);
        } else if i < 20 {
            assert(k[i] == u[i + 3]);
        } else {
            assert(k[i] == u[i + 4]);
        }
    }
}

/// A fresh stream key: a random UUID without its hyphens.
pub fn generate_stream_key() -> (k: String)
    ensures
        stream_key_text(k@),
        exists|u: Seq<char>| uuid_text(u) && k@ == #[trigger] without_dashes(u),
{
    let u = new_uuid_text();
    let k = strip_dashes(u.as_str());
    proof {
        lemma_uuid_without_dashes_is_key(u@);
    }
    k
}

/// What creating a camera stores besides the request: its stream key (a fresh one for a
/// `stream_key` camera, none otherwise) and its rewind window (24 hours unless given).
pub struct NewCamera {
    pub stream_key: Option<String>,
    pub rewind_hours: i64,
}

/// Completes a request to add a camera: a `stream_key` camera gets a fresh stream key, and
/// the rewind window defaults to 24 hours.
pub fn plan_new_camera(body: &CreateCamera) -> (r: NewCamera)
    ensures
        body.source_type@ == "stream_key"@ ==> (r.stream_key matches Some(k) && stream_key_text(k@)),
        body.source_type@ != "stream_key"@ ==> r.stream_key is None,
        r.rewind_hours == match body.rewind_hours {
            Some(h) => h,
            None => 24,
        },
{
    let stream_key = if chars_equal(&chars_of(body.source_type.as_str()), &chars_of("stream_key")) {
        Some(generate_stream_key())
    } else {
        None
    };
    let rewind_hours = match body.rewind_hours {
        Some(h) => h,
        None => 24,
    };
    NewCamera { stream_key, rewind_hours }
}

/// `column = '<value>'` with the value's quotes doubled.
pub open spec fn quoted_set(column: Seq<char>, value: Seq<char>) -> Seq<char> {
    column + " = '"@ + escape_quotes(value) + "'"@
}

/// One quoted assignment when a value is given, none otherwise.
pub open spec fn optional_set(column: Seq<char>, value: Option<String>) -> Seq<Seq<char>> {
    match value {
        Some(v) => seq![quoted_set(column, v@)],
        None => Seq::empty(),
    }
}

/// The assignments a camera update makes, in order: name, location, source type (and, when
/// it becomes `stream_key`, the new key), stream URL, rewind window, recording flag.
#[verifier::opaque]
pub open spec fn camera_sets(body: UpdateCamera, key: Seq<char>) -> Seq<Seq<char>> {
    optional_set("name"@, body.name) + optional_set("location"@, body.location) + (match body.source_type {
        Some(st) => seq![quoted_set("source_type"@, st@)] + if st@ == "stream_key"@ {
            seq!["stream_key = '"@ + key + "'"@]
        } else {
            Seq::empty()
        },
        None => Seq::empty(),
    }) + optional_set("stream_url"@, body.stream_url) + (match body.rewind_hours {
        Some(h) => seq!["rewind_hours = "@ + decimal_int(h as int)],
        None => Seq::empty(),
    }) + (match body.recording {
        Some(rec) => seq!["recording = "@ + if rec {
            "1"@
        } else {
            "0"@
        }],
        None => Seq::empty(),
    })
}

/// `UPDATE <table> SET <assignments> WHERE id = <id>`.
pub open spec fn update_statement(table: Seq<char>, sets: Seq<Seq<char>>, id: i64) -> Seq<char> {
    "UPDATE "@ + table + " SET "@ + join_with(sets, ", "@) + " WHERE id = "@ + decimal_int(id as int)
}

/// Whether a camera update would change the source type to `stream_key`.
pub open spec fn wants_stream_key(body: UpdateCamera) -> bool {
    body.source_type matches Some(st) && st@ == "stream_key"@
}

fn push_quoted_set(sets: &mut Vec<String>, column: &str, value: &str)
    ensures
        final(sets)@.map_values(|s: String| s@) == old(sets)@.map_values(|s: String| s@).push(
            quoted_set(column@, value@),
        ),
{
    let mut s = string_of(column);
    push_str(&mut s, " = '");
    let e = escape_sql(value);
    push_str(&mut s, e.as_str());
    push_str(&mut s, "'");
    let ghost before = sets@;
    let ghost sv = s@;
    sets.push(s);
    assert(sets@.map_values(|s: String| s@) =~= before.map_values(|s: String| s@).push(sv));
}

fn push_optional_set(sets: &mut Vec<String>, column: &str, value: &Option<String>)
    ensures
        final(sets)@.map_values(|s: String| s@) == old(sets)@.map_values(|s: String| s@) + optional_set(
            column@,
            *value,
        ),
{
    match value {
        Some(v) => push_quoted_set(sets, column, v.as_str()),
        None => {
            assert(old(sets)@.map_values(|s: String| s@) + optional_set(column@, *value)
                =~= old(sets)@.map_values(|s: String| s@));
        },
    }
}

fn push_owned_set(sets: &mut Vec<String>, s: String)
    ensures
        final(sets)@.map_values(|s: String| s@) == old(sets)@.map_values(|s: String| s@).push(s@),
{
    let ghost before = sets@;
    let ghost sv = s@;
    sets.push(s);
    assert(sets@.map_values(|s: String| s@) =~= before.map_values(|s: String| s@).push(sv));
}

/// The assignments of a camera update; `key` is the new stream key, used when the source
/// type becomes `stream_key`.
pub fn camera_update_sets(body: &UpdateCamera, key: &str) -> (sets: Vec<String>)
    ensures
        sets@.map_values(|s: String| s@) == camera_sets(*body, key@),
{
    let mut sets: Vec<String> = Vec::new();
    assert(sets@.map_values(|s: String| s@) =~= Seq::<Seq<char>>::empty());
    push_optional_set(&mut sets, "name", &body.name);
    push_optional_set(&mut sets, "location", &body.location);
    let ghost after_location = sets@.map_values(|s: String| s@);
    match &body.source_type {
        Some(st) => {
            push_quoted_set(&mut sets, "source_type", st.as_str());
            if chars_equal(&chars_of(st.as_str()), &chars_of("stream_key")) {
                let mut s = string_of("stream_key = '");
                push_str(&mut s, key);
                push_str(&mut s, "'");
                push_owned_set(&mut sets, s);
            }
        },
        None => {},
    }
    let ghost after_source = sets@.map_values(|s: String| s@);
    push_optional_set(&mut sets, "stream_url", &body.stream_url);
    match body.rewind_hours {
        Some(h) => {
            let mut s = string_of("rewind_hours = ");
            push_decimal_i64(&mut s, h);
            push_owned_set(&mut sets, s);
        },
        None => {},
    }
    match body.recording {
        Some(rec) => {
            let s = if rec {
                string_of("recording = 1")
            } else {
                string_of("recording = 0")
            };
            proof {
                reveal_strlit("recording = ");
                reveal_strlit("recording = 1");
                reveal_strlit("recording = 0");
                reveal_strlit("1");
                reveal_strlit("0");
                assert("recording = 1"@ =~= "recording = "@ + "1"@);
                assert("recording = 0"@ =~= "recording = "@ + "0"@);
            }
            push_owned_set(&mut sets, s);
        },
        None => {},
    }
    assert(sets@.map_values(|s: String| s@) =~= camera_sets(*body, key@)) by {
        reveal(camera_sets);
    }
    sets
}

/// How many assignments a camera update makes does not depend on the stream key, and a
/// change to `stream_key` makes at least one.
proof fn lemma_camera_sets_len(body: UpdateCamera, k1: Seq<char>, k2: Seq<char>)
    ensures
        camera_sets(body, k1).len() == camera_sets(body, k2).len(),
        wants_stream_key(body) ==> camera_sets(body, k1).len() >= 1,
{
    reveal(camera_sets);
}

/// Some assignment of `sets` gives `column` the value `v`: it reads `<column> = '` followed
/// by a quoted literal that SQL reads back as exactly `v`, with nothing after its closing
/// quote.
pub open spec fn assigns_value(sets: Seq<Seq<char>>, column: Seq<char>, v: Seq<char>) -> bool {
    exists|j: int, t: Seq<char>|
        0 <= j < sets.len() && #[trigger] sets[j] == column + " = '"@ + t && #[trigger] read_quoted(t)
            == Some((v, Seq::<char>::empty()))
}

proof fn lemma_quoted_set_assigns(sets: Seq<Seq<char>>, j: int, column: Seq<char>, v: Seq<char>)
    requires
        0 <= j < sets.len(),
        sets[j] == quoted_set(column, v),
    ensures
        assigns_value(sets, column, v),
{
    reveal_strlit("'");
    let t = escape_quotes(v) + seq!['\''];
    lemma_escaped_literal_reads_back(v, Seq::empty());
    assert(escape_quotes(v) + seq!['\''] + Seq::<char>::empty() =~= t);
    assert(sets[j] =~= column + " = '"@ + t);
    assert(read_quoted(t) == Some((v, Seq::<char>::empty())));
}

/// Camera-update quoting law: every text field that a camera update gives (name, location,
/// source type, stream URL) is assigned as `<column> = '...'`, with a literal that SQL
/// reads back as exactly the value given, whatever quotes the value holds.
pub proof fn lemma_camera_update_values_read_back(body: UpdateCamera, key: Seq<char>)
    ensures
        body.name matches Some(v) ==> assigns_value(camera_sets(body, key), "name"@, v@),
        body.location matches Some(v) ==> assigns_value(camera_sets(body, key), "location"@, v@),
        body.source_type matches Some(v) ==> assigns_value(
            camera_sets(body, key),
            "source_type"@,
            v@,
        ),
        body.stream_url matches Some(v) ==> assigns_value(camera_sets(body, key), "stream_url"@, v@),
{
    reveal(camera_sets);
    let a = optional_set("name"@, body.name);
    let b = optional_set("location"@, body.location);
    let c = match body.source_type {
        Some(st) => seq![quoted_set("source_type"@, st@)] + if st@ == "stream_key"@ {
            seq!["stream_key = '"@ + key + "'"@]
        } else {
            Seq::empty()
        },
        None => Seq::empty(),
    };
    let d = optional_set("stream_url"@, body.stream_url);
    let e = match body.rewind_hours {
        Some(h) => seq!["rewind_hours = "@ + decimal_int(h as int)],
        None => Seq::<Seq<char>>::empty(),
    };
    let f = match body.recording {
        Some(rec) => seq!["recording = "@ + if rec {
            "1"@
        } else {
            "0"@
        }],
        None => Seq::<Seq<char>>::empty(),
    };
    let sets = camera_sets(body, key);
    assert(sets == a + b + c + d + e + f);
    if let Some(v) = body.name {
        assert(sets[0] == a[0]);
        lemma_quoted_set_assigns(sets, 0, "name"@, v@);
    }
    if let Some(v) = body.location {
        let j = a.len() as int;
        assert(sets[j] == b[0]);
        lemma_quoted_set_assigns(sets, j, "location"@, v@);
    }
    if let Some(v) = body.source_type {
        let j = (a.len() + b.len()) as int;
        assert(sets[j] == c[0]);
        lemma_quoted_set_assigns(sets, j, "source_type"@, v@);
    }
    if let Some(v) = body.stream_url {
        let j = (a.len() + b.len() + c.len()) as int;
        assert(sets[j] == d[0]);
        lemma_quoted_set_assigns(sets, j, "stream_url"@, v@);
    }
}

/// `UPDATE <table> SET <sets> WHERE id = <id>`.
pub fn update_sql(table: &str, sets: &Vec<String>, id: i64) -> (r: String)
    ensures
        r@ == update_statement(table@, sets@.map_values(|s: String| s@), id),
{
    let mut r = string_of("UPDATE ");
    push_str(&mut r, table);
    push_str(&mut r, " SET ");
    let joined = join_strings(sets, ", ");
    push_str(&mut r, joined.as_str());
    push_str(&mut r, " WHERE id = ");
    push_decimal_i64(&mut r, id);
    r
}

/// A camera update ready to run: its SQL statement, and the stream key it introduces
/// (an RTMP ingest is to be started for it).
pub struct CameraUpdate {
    pub sql: String,
    pub new_stream_key: Option<String>,
}

/// Turns a camera update into SQL: `None` when it changes nothing. When the source type
/// becomes `stream_key`, a fresh stream key is generated and stored.
pub fn plan_camera_update(id: i64, body: &UpdateCamera) -> (r: Option<CameraUpdate>)
    ensures
        match r {
            None => camera_sets(*body, Seq::empty()).len() == 0,
            Some(u) => exists|key: Seq<char>|
                #![trigger camera_sets(*body, key)]
                {
                    &&& camera_sets(*body, key).len() > 0
                    &&& u.sql@ == update_statement("cameras"@, camera_sets(*body, key), id)
                    &&& if wants_stream_key(*body) {
                        u.new_stream_key matches Some(k) && k@ == key && stream_key_text(key)
                    } else {
                        u.new_stream_key is None
                    }
                },
        },
{
    let wants = match &body.source_type {
        Some(st) => chars_equal(&chars_of(st.as_str()), &chars_of("stream_key")),
        None => false,
    };
    let key = if wants {
        generate_stream_key()
    } else {
        String::new()
    };
    let sets = camera_update_sets(body, key.as_str());
    if sets.len() == 0 {
        proof {
            lemma_camera_sets_len(*body, key@, Seq::empty());
        }
        return None;
    }
    let sql = update_sql("cameras", &sets, id);
    let new_stream_key = if wants {
        Some(key)
    } else {
        None
    };
    Some(CameraUpdate { sql, new_stream_key })
}

/// A character of bcrypt's base-64 alphabet.
pub open spec fn is_bcrypt_char(c: char) -> bool {
    c == '.' || c == '/' || ('A' <= c && c <= 'Z') || ('a' <= c && c <= 'z') || ('0' <= c && c <= '9')
}

/// The text of a bcrypt hash made with `cost`: `$2b$`, the cost in two digits, `$`, then 53
/// characters of bcrypt's base-64 alphabet (salt and digest).
pub open spec fn bcrypt_hash_text(h: Seq<char>, cost: u32) -> bool {
    &&& h.len() == 60
    &&& h[0] == '$' && h[1] == '2' && h[2] == 'b' && h[3] == '$'
    &&& h[4] == (48 + cost / 10) as char && h[5] == (48 + cost % 10) as char
    &&& h[6] == '$'
    &&& forall|i: int| 7 <= i < 60 ==> is_bcrypt_char(#[trigger] h[i])
}

/// `bcrypt::hash(password, cost)`, its error turned into `None`. It draws a random salt, so
/// two calls differ; what holds of every hash it gives is its shape, `bcrypt_hash_text`
/// (`$2b$`, the two-digit cost, `$`, 22 salt and 31 digest characters of bcrypt's
/// alphabet), and that `bcrypt::verify` accepts the password against it (`verify` reads the
/// cost and salt back from the hash and recomputes the same digest). It refuses a cost
/// outside 4..=31; with one inside it fails only when the system's randomness does.
#[verifier::external_body]
fn bcrypt_hash(password: &str, cost: u32) -> (r: Option<String>)
    ensures
        r matches Some(h) ==> 4 <= cost <= 31 && bcrypt_hash_text(h@, cost) && bcrypt_verdict(
            password@,
            h@,
        ) == Some(true),
{
    match bcrypt::hash(password, cost) {
        Ok(h) => Some(h),
        Err(_) => None,
    }
}

/// The bcrypt cost the service hashes passwords with.
pub const PASSWORD_COST: u32 = 10;

/// A bcrypt hash of `password` at the service's cost, or `None` when hashing failed.
pub fn hash_password(password: &str) -> (r: Option<String>)
    ensures
        r matches Some(h) ==> bcrypt_hash_text(h@, PASSWORD_COST) && bcrypt_verdict(password@, h@)
            == Some(true),
{
    bcrypt_hash(password, PASSWORD_COST)
}

/// The role a new user gets: the one asked for, `user` otherwise.
pub open spec fn new_user_role(role: Option<String>) -> Seq<char> {
    match role {
        Some(r) => r@,
        None => "user"@,
    }
}

/// What creating a user stores besides the name: the password hash, which `bcrypt::verify`
/// accepts the password against, and the role. `None` when hashing the password failed.
pub fn plan_new_user(body: &CreateUser) -> (r: Option<(String, String)>)
    ensures
        r matches Some((hash, role)) ==> {
            &&& bcrypt_hash_text(hash@, PASSWORD_COST)
            &&& bcrypt_verdict(body.password@, hash@) == Some(true)
            &&& role@ == new_user_role(body.role)
        },
{
    let role = match &body.role {
        Some(r) => r.clone(),
        None => string_of("user"),
    };
    match hash_password(body.password.as_str()) {
        Some(hash) => Some((hash, role)),
        None => None,
    }
}

/// The assignments a user update makes: the new password hash (when there is one), then
/// the role.
pub open spec fn user_sets(hash: Option<Seq<char>>, role: Option<String>) -> Seq<Seq<char>> {
    (match hash {
        Some(h) => seq![quoted_set("password_hash"@, h)],
        None => Seq::empty(),
    }) + optional_set("role"@, role)
}

/// Turns a user update into SQL: a new password is stored as its bcrypt hash, which
/// `bcrypt::verify` accepts the password against (and is left out when hashing fails);
/// `None` when nothing is left to change.
pub fn plan_user_update(id: i64, body: &UpdateUser) -> (r: Option<String>)
    ensures
        exists|hash: Option<Seq<char>>|
            #![trigger user_sets(hash, body.role)]
            {
                &&& (body.password is None ==> hash is None)
                &&& (hash matches Some(h) ==> bcrypt_hash_text(h, PASSWORD_COST) && (body.password matches Some(
                    p,
                ) && bcrypt_verdict(p@, h) == Some(true)))
                &&& (r is None <==> user_sets(hash, body.role).len() == 0)
                &&& (r matches Some(sql) ==> sql@ == update_statement(
                    "users"@,
                    user_sets(hash, body.role),
                    id,
                ))
            },
{
    let mut sets: Vec<String> = Vec::new();
    assert(sets@.map_values(|s: String| s@) =~= Seq::<Seq<char>>::empty());
    let hash: Option<String> = match &body.password {
        Some(p) => hash_password(p.as_str()),
        None => None,
    };
    let ghost hv: Option<Seq<char>> = crate::recorder::option_view(hash);
    match &hash {
        Some(h) => push_quoted_set(&mut sets, "password_hash", h.as_str()),
        None => {},
    }
    push_optional_set(&mut sets, "role", &body.role);
    assert(sets@.map_values(|s: String| s@) =~= user_sets(hv, body.role));
    if sets.len() == 0 {
        return None;
    }
    Some(update_sql("users", &sets, id))
}

/// Whether deleting a user whose role is `target_role` (`None` when unknown) is allowed
/// while `admin_count` administrators exist: never the last administrator.
pub open spec fn deletion_allowed(target_role: Option<Seq<char>>, admin_count: i64) -> bool {
    !(target_role == Some("admin"@) && admin_count <= 1)
}

/// Whether a user may be deleted: an administrator only while another one remains, so that
/// an allowed deletion of an administrator always leaves at least one.
pub fn may_delete_user(target_role: Option<&str>, admin_count: i64) -> (r: bool)
    ensures
        r == deletion_allowed(
            match target_role {
                Some(t) => Some(t@),
                None => None,
            },
            admin_count,
        ),
        (r && (target_role matches Some(t) && t@ == "admin"@)) ==> admin_count - 1 >= 1,
{
    match target_role {
        Some(role) => !(chars_equal(&chars_of(role), &chars_of("admin")) && admin_count <= 1),
        None => true,
    }
}

/// The RTMP port setting: the stored value when it parses as a port number, 1935 otherwise.
pub fn rtmp_port(setting: Option<&str>) -> (port: u16)
    ensures
        port == match setting {
            Some(s) => match parsed_u16(s@) {
                Some(p) => p,
                None => 1935,
            },
            None => 1935,
        },
{
    match setting {
        Some(s) => match parse_u16(s) {
            Some(p) => p,
            None => 1935,
        },
        None => 1935,
    }
}

} // verus!

//! The server's store: carrying out commands on it, and the dump file that
//! saves it and loads it back.
use vstd::prelude::*;
use vstd::bytes::{spec_u64_from_le_bytes, spec_u64_to_le_bytes, u64_from_le_bytes, u64_to_le_bytes};
use vstd::string::*;
use crate::decimal::{dec_digits, lemma_dec_digits_shape, is_digit, push_decimal};
use crate::protocol::{Command, CommandView, RedisResult, RedisValue, Response, ResponseView};
use crate::store::{Store, distinct_keys, lengths_fit, entries_after_insert, entries_after_remove, insert_all};
use crate::text::{lemma_decode_ascii, string_from_utf8};

verus! {

/// The state after a command and the response to it, where the store held
/// the map `m`.
pub open spec fn step(m: Map<Seq<u8>, Seq<u8>>, c: CommandView) -> (Map<Seq<u8>, Seq<u8>>, ResponseView) {
    match c {
        CommandView::SetKey { key, value } => (m.insert(key, value), ResponseView::Okay),
        CommandView::Get { key } => (
            m,
            if m.contains_key(key) {
                ResponseView::Bulk(m[key])
            } else {
                ResponseView::Nil
            },
        ),
        CommandView::Del { keys } => (
            delete_keys(m, keys).0,
            ResponseView::Integer(delete_keys(m, keys).1 as int),
        ),
        CommandView::Save => (m, ResponseView::Okay),
    }
}

/// Deleting `keys` one after the other: the map left and how many of them
/// were present when their turn came.
pub open spec fn delete_keys(m: Map<Seq<u8>, Seq<u8>>, keys: Seq<Seq<u8>>) -> (Map<Seq<u8>, Seq<u8>>, nat)
    decreases keys.len(),
{
    if keys.len() == 0 {
        (m, 0)
    } else {
        let (before, n) = delete_keys(m, keys.drop_last());
        if before.contains_key(keys.last()) {
            (before.remove(keys.last()), n + 1)
        } else {
            (before, n)
        }
    }
}

/// The entries of the store after a command, where they were `entries`.
pub open spec fn step_entries(entries: Seq<(Seq<u8>, Seq<u8>)>, c: CommandView) -> Seq<(Seq<u8>, Seq<u8>)> {
    match c {
        CommandView::SetKey { key, value } => entries_after_insert(entries, key, value),
        CommandView::Del { keys } => entries_after_removing(entries, keys),
        _ => entries,
    }
}

/// The entries after removing `keys` one after the other.
pub open spec fn entries_after_removing(entries: Seq<(Seq<u8>, Seq<u8>)>, keys: Seq<Seq<u8>>) -> Seq<
    (Seq<u8>, Seq<u8>),
>
    decreases keys.len(),
{
    if keys.len() == 0 {
        entries
    } else {
        entries_after_remove(entries_after_removing(entries, keys.drop_last()), keys.last())
    }
}

/// The entries after inserting `loaded` one after the other.
pub open spec fn entries_after_loading(
    entries: Seq<(Seq<u8>, Seq<u8>)>,
    loaded: Seq<(Seq<u8>, Seq<u8>)>,
) -> Seq<(Seq<u8>, Seq<u8>)>
    decreases loaded.len(),
{
    if loaded.len() == 0 {
        entries
    } else {
        let e = loaded.last();
        entries_after_insert(entries_after_loading(entries, loaded.drop_last()), e.0, e.1)
    }
}

/// The bytes that open a dump: `RSTREDIS`.
pub open spec fn dump_magic() -> Seq<u8> {
    seq![82u8, 83u8, 84u8, 82u8, 69u8, 68u8, 73u8, 83u8]
}

/// The bytes that name the dump's version: `V1` and six zero bytes.
pub open spec fn dump_version() -> Seq<u8> {
    seq![86u8, 49u8, 0u8, 0u8, 0u8, 0u8, 0u8, 0u8]
}

/// One entry of a dump: a flags byte (0, a string), the key's length and
/// the value's length as little-endian `u64`s, the key, the value.
pub open spec fn entry_bytes(e: (Seq<u8>, Seq<u8>)) -> Seq<u8> {
    seq![0u8] + spec_u64_to_le_bytes(e.0.len() as u64) + spec_u64_to_le_bytes(e.1.len() as u64)
        + e.0 + e.1
}

/// The entries of a dump, one after the other.
pub open spec fn entries_bytes(entries: Seq<(Seq<u8>, Seq<u8>)>) -> Seq<u8>
    decreases entries.len(),
{
    if entries.len() == 0 {
        Seq::empty()
    } else {
        entries_bytes(entries.drop_last()) + entry_bytes(entries.last())
    }
}

/// A dump of `entries`: magic, version, the entries, and 0xff to end them.
pub open spec fn dump_bytes(entries: Seq<(Seq<u8>, Seq<u8>)>) -> Seq<u8> {
    dump_magic() + dump_version() + entries_bytes(entries) + seq![255u8]
}

/// The decimal text of `n`.
pub open spec fn dec_text(n: nat) -> Seq<char> {
    dec_digits(n).map_values(|b: u8| b as char)
}

/// The error for a read of `expected` bytes that found only `got`.
pub open spec fn short_read_text(expected: nat, got: nat) -> Seq<char> {
    "Invalid read length: expected "@ + dec_text(expected) + ", got "@ + dec_text(got)
}

/// Reading `n` bytes of the dump `b` at `pos`.
pub open spec fn read_at(b: Seq<u8>, pos: int, n: nat) -> Result<Seq<u8>, Seq<char>> {
    if pos + n <= b.len() {
        Ok(b.subrange(pos, pos + n))
    } else {
        Err(short_read_text(n, (b.len() - pos) as nat))
    }
}

/// Reading dump entries from `pos` up to the end marker: the entries read,
/// and whether the reading ended well.
pub open spec fn dump_entries_at(b: Seq<u8>, pos: int) -> (Seq<(Seq<u8>, Seq<u8>)>, Result<(), Seq<char>>)
    decreases b.len() - pos,
{
    if pos < 0 || pos > b.len() {
        (Seq::empty(), Ok(()))
    } else {
        match read_at(b, pos, 1) {
            Err(e) => (Seq::empty(), Err(e)),
            Ok(flags) => if flags[0] == 255u8 {
                (Seq::empty(), Ok(()))
            } else {
                match read_at(b, pos + 1, 8) {
                    Err(e) => (Seq::empty(), Err(e)),
                    Ok(kl) => match read_at(b, pos + 9, 8) {
                        Err(e) => (Seq::empty(), Err(e)),
                        Ok(vl) => {
                            let key_len = spec_u64_from_le_bytes(kl) as nat;
                            let value_len = spec_u64_from_le_bytes(vl) as nat;
                            match read_at(b, pos + 17, key_len) {
                                Err(e) => (Seq::empty(), Err(e)),
                                Ok(key) => match read_at(b, pos + 17 + key_len, value_len) {
                                    Err(e) => (Seq::empty(), Err(e)),
                                    Ok(value) => {
                                        let rest = dump_entries_at(b, pos + 17 + key_len + value_len);
                                        (seq![(key, value)] + rest.0, rest.1)
                                    },
                                },
                            }
                        },
                    },
                }
            },
        }
    }
}

/// Reading a dump: the entries read, in order, and whether the reading
/// ended well. A reading that fails part way keeps the entries before.
pub open spec fn dump_contents(b: Seq<u8>) -> (Seq<(Seq<u8>, Seq<u8>)>, Result<(), Seq<char>>) {
    match read_at(b, 0, 8) {
        Err(e) => (Seq::empty(), Err(e)),
        Ok(magic) => if magic != dump_magic() {
            (Seq::empty(), Err("Invalid magic"@))
        } else {
            match read_at(b, 8, 8) {
                Err(e) => (Seq::empty(), Err(e)),
                Ok(version) => if version != dump_version() {
                    (Seq::empty(), Err("Invalid version"@))
                } else {
                    dump_entries_at(b, 16)
                },
            }
        },
    }
}

/// The decimal text of `n`, as a `String`.
fn decimal_string(n: u64) -> (s: String)
    ensures
        s@ == dec_text(n as nat),
{
    let mut digits: Vec<u8> = Vec::new();
    push_decimal(&mut digits, n as u128);
    proof {
        lemma_dec_digits_shape(n as nat);
        assert forall|i: int| 0 <= i < digits@.len() implies #[trigger] digits@[i] < 128 by {
            assert(is_digit(dec_digits(n as nat)[i]));
        }
        lemma_decode_ascii(digits@);
        assert(digits@ =~= dec_digits(n as nat));
    }
    match string_from_utf8(digits) {
        Some(s) => s,
        None => String::new(),
    }
}

/// The error for a read of `expected` bytes that found only `got`.
fn short_read_error(expected: u64, got: u64) -> (s: String)
    ensures
        s@ == short_read_text(expected as nat, got as nat),
{
    let mut s = String::from_str("Invalid read length: expected ");
    let e = decimal_string(expected);
    s.append(e.as_str());
    s.append(", got ");
    let g = decimal_string(got);
    s.append(g.as_str());
    s
}

/// Reads `len` bytes of the dump `db` at `*cursor`, and moves the cursor
/// past them.
fn read_vec_at(db: &[u8], cursor: &mut u64, len: u64) -> (r: RedisResult<Vec<u8>>)
    requires
        *old(cursor) <= db@.len(),
    ensures
        match r {
            Ok(v) => read_at(db@, *old(cursor) as int, len as nat) == Ok::<Seq<u8>, Seq<char>>(v@)
                && *final(cursor) == *old(cursor) + len,
            Err(e) => read_at(db@, *old(cursor) as int, len as nat) == Err::<Seq<u8>, Seq<char>>(e@)
                && *final(cursor) == *old(cursor),
        },
{
    let total = db.len() as u64;
    let available = total - *cursor;
    if len > available {
        return Err(short_read_error(len, available));
    }
    let start = *cursor as usize;
    let end = start + len as usize;
    let buf = vstd::slice::slice_to_vec(vstd::slice::slice_subrange(db, start, end));
    *cursor = *cursor + len;
    Ok(buf)
}

/// The server's store, and the path of the file it is saved to.
pub struct DbCore {
    data: Store,
    dump_path: String,
}

impl View for DbCore {
    type V = Map<Seq<u8>, Seq<u8>>;

    open spec fn view(&self) -> Map<Seq<u8>, Seq<u8>> {
        self.data_view()
    }
}

impl DbCore {
    /// What the store holds.
    pub closed spec fn data_view(&self) -> Map<Seq<u8>, Seq<u8>> {
        self.data@
    }

    /// The entries of the store, in the order it keeps and saves them.
    pub closed spec fn entries(&self) -> Seq<(Seq<u8>, Seq<u8>)> {
        self.data.entries()
    }

    /// The path of the dump file.
    pub closed spec fn path(&self) -> Seq<char> {
        self.dump_path@
    }

    /// The store's map is the map of its entries.
    pub proof fn lemma_view_is_entries(&self)
        ensures
            self@ == crate::store::entries_map(self.entries()),
    {
    }

    /// An empty store that saves to `dump_path`.
    pub fn new(dump_path: String) -> (db: DbCore)
        ensures
            db@ == Map::<Seq<u8>, Seq<u8>>::empty(),
            db.entries() == Seq::<(Seq<u8>, Seq<u8>)>::empty(),
            db.path() == dump_path@,
    {
        DbCore { data: Store::new(), dump_path }
    }

    /// The path of the dump file.
    pub fn dump_path(&self) -> (p: &String)
        ensures
            p@ == self.path(),
    {
        &self.dump_path
    }

    /// Carries out `command`. Gives the response and, for a save, the bytes
    /// to write to the dump file before the response is sent.
    pub fn execute(&mut self, command: Command) -> (r: (Response, Option<Vec<u8>>))
        requires
            command@ matches CommandView::Del { keys } ==> keys.len() <= i64::MAX,
        ensures
            final(self)@ == step(old(self)@, command@).0,
            final(self).entries() == step_entries(old(self).entries(), command@),
            distinct_keys(final(self).entries()),
            lengths_fit(final(self).entries()),
            r.0@ == step(old(self)@, command@).1,
            r.1 is Some <==> command@ is Save,
            r.1 matches Some(b) ==> b@ == dump_bytes(old(self).entries()),
            final(self).path() == old(self).path(),
            match command@ {
                CommandView::SetKey { key, value } => final(self)@ == old(self)@.insert(key, value)
                    && r.0@ == ResponseView::Okay,
                CommandView::Get { key } => final(self)@ == old(self)@ && r.0@ == (if old(
                    self,
                )@.contains_key(key) {
                    ResponseView::Bulk(old(self)@[key])
                } else {
                    ResponseView::Nil
                }),
                CommandView::Del { keys } => final(self)@ == old(self)@.remove_keys(keys.to_set())
                    && r.0@ == ResponseView::Integer(
                    old(self)@.dom().intersect(keys.to_set()).len() as int,
                ),
                CommandView::Save => final(self)@ == old(self)@ && r.0@ == ResponseView::Okay,
            },
    {
        let ghost before = self@;
        proof {
            use_type_invariant(&self.data);
            self.lemma_view_is_entries();
            crate::store::lemma_insert_all_finite(Map::empty(), self.entries());
            if let CommandView::Del { keys } = command@ {
                crate::db_laws::law_delete_counts_present_keys(before, keys);
            }
        }
        let r = self.carry_out(command);
        proof {
            use_type_invariant(&self.data);
        }
        r
    }

    /// Carries out `command` (see `execute`).
    fn carry_out(&mut self, command: Command) -> (r: (Response, Option<Vec<u8>>))
        requires
            command@ matches CommandView::Del { keys } ==> keys.len() <= i64::MAX,
        ensures
            final(self)@ == step(old(self)@, command@).0,
            final(self).entries() == step_entries(old(self).entries(), command@),
            r.0@ == step(old(self)@, command@).1,
            r.1 is Some <==> command@ is Save,
            r.1 matches Some(b) ==> b@ == dump_bytes(old(self).entries()),
            final(self).path() == old(self).path(),
    {
        match command {
            Command::SetKey { key, value } => {
                self.data.insert(key, value);
                (Response::Okay, None)
            },
            Command::Get { key } => match self.data.get(key.as_slice()) {
                Some(value) => {
                    let val = match value {
                        RedisValue::Str(val) => val,
                    };
                    let bytes = vstd::slice::slice_to_vec(val.as_slice());
                    assert(bytes@ == old(self)@[key@]);
                    (Response::Bulk(bytes), None)
                },
                None => (Response::Nil, None),
            },
            Command::Del { keys } => {
                let ghost ks = crate::protocol::keys_view(keys@);
                let ghost m0 = self@;
                let mut removed: i64 = 0;
                let n = keys.len();
                let mut i: usize = 0;
                while i < n
                    invariant
                        0 <= i <= n,
                        n == keys@.len(),
                        n <= i64::MAX,
                        ks == crate::protocol::keys_view(keys@),
                        delete_keys(m0, ks.take(i as int)) == (self@, removed as nat),
                        self.entries() == entries_after_removing(old(self).entries(), ks.take(i as int)),
                        0 <= removed <= i,
                        self.path() == old(self).path(),
                    decreases n - i,
                {
                    assert(ks.take(i + 1).drop_last() =~= ks.take(i as int));
                    assert(ks.take(i + 1).last() == keys@[i as int]@);
                    if self.data.remove(keys[i].as_slice()) {
                        removed = removed + 1;
                    }
                    i = i + 1;
                }
                assert(ks.take(n as int) =~= ks);
                (Response::Integer(removed), None)
            },
            Command::Save => {
                let bytes = self.save();
                (Response::Okay, Some(bytes))
            },
        }
    }

    /// The dump of the store: every entry, in the order the store keeps them.
    fn save(&self) -> (r: Vec<u8>)
        ensures
            r@ == dump_bytes(self.entries()),
    {
        let mut out: Vec<u8> = vec![82u8, 83u8, 84u8, 82u8, 69u8, 68u8, 73u8, 83u8];
        let mut version: Vec<u8> = vec![86u8, 49u8, 0u8, 0u8, 0u8, 0u8, 0u8, 0u8];
        out.append(&mut version);
        let n = self.data.len();
        let ghost es = self.entries();
        let mut i: usize = 0;
        while i < n
            invariant
                0 <= i <= n,
                n == es.len(),
                es == self.entries(),
                out@ == dump_magic() + dump_version() + entries_bytes(es.take(i as int)),
            decreases n - i,
        {
            let (key, value) = self.data.entry(i);
            let val = match value {
                RedisValue::Str(v) => v,
            };
            out.push(0u8);
            let mut kl = u64_to_le_bytes(key.len() as u64);
            out.append(&mut kl);
            let mut vl = u64_to_le_bytes(val.len() as u64);
            out.append(&mut vl);
            let mut k = vstd::slice::slice_to_vec(key.as_slice());
            out.append(&mut k);
            let mut v = vstd::slice::slice_to_vec(val.as_slice());
            out.append(&mut v);
            proof {
                assert(es.take(i + 1).drop_last() =~= es.take(i as int));
                assert(es.take(i + 1).last() == es[i as int]);
            }
            assert(out@ =~= dump_magic() + dump_version() + entries_bytes(es.take(i + 1)));
            i = i + 1;
        }
        out.push(255u8);
        assert(es.take(n as int) =~= es);
        assert(out@ =~= dump_bytes(es));
        out
    }

    /// Loads a dump into the store, entry by entry. A dump that fails to
    /// read part way leaves the entries before the failure loaded.
    pub fn load(&mut self, dump: &[u8]) -> (r: RedisResult<()>)
        ensures
            final(self)@ == insert_all(old(self)@, dump_contents(dump@).0),
            final(self).entries() == entries_after_loading(old(self).entries(), dump_contents(dump@).0),
            distinct_keys(final(self).entries()),
            lengths_fit(final(self).entries()),
            match r {
                Ok(()) => dump_contents(dump@).1 is Ok,
                Err(e) => dump_contents(dump@).1 == Err::<(), Seq<char>>(e@),
            },
            final(self).path() == old(self).path(),
    {
        let r = self.load_entries(dump);
        proof {
            use_type_invariant(&self.data);
        }
        r
    }

    /// Loads a dump into the store (see `load`).
    fn load_entries(&mut self, dump: &[u8]) -> (r: RedisResult<()>)
        ensures
            final(self)@ == insert_all(old(self)@, dump_contents(dump@).0),
            final(self).entries() == entries_after_loading(old(self).entries(), dump_contents(dump@).0),
            match r {
                Ok(()) => dump_contents(dump@).1 is Ok,
                Err(e) => dump_contents(dump@).1 == Err::<(), Seq<char>>(e@),
            },
            final(self).path() == old(self).path(),
    {
        let ghost b = dump@;
        let mut cursor: u64 = 0;
        let magic = match read_vec_at(dump, &mut cursor, 8) {
            Ok(v) => v,
            Err(e) => return Err(e),
        };
        if !(magic.len() == 8 && magic[0] == 82u8 && magic[1] == 83u8 && magic[2] == 84u8
            && magic[3] == 82u8 && magic[4] == 69u8 && magic[5] == 68u8 && magic[6] == 73u8
            && magic[7] == 83u8) {
            assert(magic@ != dump_magic());
            return Err(String::from_str("Invalid magic"));
        }
        assert(magic@ =~= dump_magic());
        let version = match read_vec_at(dump, &mut cursor, 8) {
            Ok(v) => v,
            Err(e) => return Err(e),
        };
        if !(version.len() == 8 && version[0] == 86u8 && version[1] == 49u8 && version[2] == 0u8
            && version[3] == 0u8 && version[4] == 0u8 && version[5] == 0u8 && version[6] == 0u8
            && version[7] == 0u8) {
            assert(version@ != dump_version());
            return Err(String::from_str("Invalid version"));
        }
        assert(version@ =~= dump_version());
        let ghost mut done: Seq<(Seq<u8>, Seq<u8>)> = Seq::empty();
        let ghost m0 = self@;
        assert(dump_contents(b) == dump_entries_at(b, 16));
        loop
            invariant
                16 <= cursor <= b.len(),
                b == dump@,
                dump_contents(b).0 == done + dump_entries_at(b, cursor as int).0,
                dump_contents(b).1 == dump_entries_at(b, cursor as int).1,
                self@ == insert_all(m0, done),
                self.entries() == entries_after_loading(old(self).entries(), done),
                m0 == old(self)@,
                self.path() == old(self).path(),
            decreases b.len() - cursor,
        {
            let ghost pos = cursor as int;
            let flags = match read_vec_at(dump, &mut cursor, 1) {
                Ok(v) => v,
                Err(e) => {
                    assert(done + Seq::<(Seq<u8>, Seq<u8>)>::empty() =~= done);
                    return Err(e);
                },
            };
            if flags[0] == 255u8 {
                assert(done + Seq::<(Seq<u8>, Seq<u8>)>::empty() =~= done);
                return Ok(());
            }
            let kl = match read_vec_at(dump, &mut cursor, 8) {
                Ok(v) => v,
                Err(e) => {
                    assert(done + Seq::<(Seq<u8>, Seq<u8>)>::empty() =~= done);
                    return Err(e);
                },
            };
            let vl = match read_vec_at(dump, &mut cursor, 8) {
                Ok(v) => v,
                Err(e) => {
                    assert(done + Seq::<(Seq<u8>, Seq<u8>)>::empty() =~= done);
                    return Err(e);
                },
            };
            let key_len = u64_from_le_bytes(kl.as_slice());
            let value_len = u64_from_le_bytes(vl.as_slice());
            let key = match read_vec_at(dump, &mut cursor, key_len) {
                Ok(v) => v,
                Err(e) => {
                    assert(done + Seq::<(Seq<u8>, Seq<u8>)>::empty() =~= done);
                    return Err(e);
                },
            };
            let value = match read_vec_at(dump, &mut cursor, value_len) {
                Ok(v) => v,
                Err(e) => {
                    assert(done + Seq::<(Seq<u8>, Seq<u8>)>::empty() =~= done);
                    return Err(e);
                },
            };
            let ghost entry = (key@, value@);
            proof {
                let rest = dump_entries_at(b, cursor as int);
                assert(dump_entries_at(b, pos) == (seq![entry] + rest.0, rest.1));
                assert(done + (seq![entry] + rest.0) =~= done.push(entry) + rest.0);
                assert(done.push(entry).drop_last() =~= done);
            }
            self.data.insert(key, RedisValue::Str(value));
            proof {
                done = done.push(entry);
            }
        }
    }
}

/// The dump of two runs of entries is the dump of the first, then of the
/// second.
proof fn lemma_entries_bytes_concat(a: Seq<(Seq<u8>, Seq<u8>)>, c: Seq<(Seq<u8>, Seq<u8>)>)
    ensures
        entries_bytes(a + c) == entries_bytes(a) + entries_bytes(c),
    decreases c.len(),
{
    if c.len() == 0 {
        assert(a + c =~= a);
        assert(entries_bytes(a) + Seq::<u8>::empty() =~= entries_bytes(a));
    } else {
        lemma_entries_bytes_concat(a, c.drop_last());
        assert((a + c).drop_last() =~= a + c.drop_last());
        assert((a + c).last() == c.last());
    }
}

/// Where an entry stands at `p`, reading entries from `p` gives it, then
/// what reading from after it gives.
proof fn lemma_read_entry(b: Seq<u8>, p: int, e: (Seq<u8>, Seq<u8>))
    requires
        0 <= p,
        p + entry_bytes(e).len() <= b.len(),
        b.subrange(p, p + entry_bytes(e).len() as int) == entry_bytes(e),
        e.0.len() <= u64::MAX,
        e.1.len() <= u64::MAX,
    ensures
        dump_entries_at(b, p) == (
            seq![e] + dump_entries_at(b, p + entry_bytes(e).len()).0,
            dump_entries_at(b, p + entry_bytes(e).len()).1,
        ),
{
    let eb = entry_bytes(e);
    vstd::bytes::lemma_auto_spec_u64_to_from_le_bytes();
    let kb = spec_u64_to_le_bytes(e.0.len() as u64);
    let vb = spec_u64_to_le_bytes(e.1.len() as u64);
    assert(kb.len() == 8 && vb.len() == 8);
    assert(b[p] == eb[0]);
    assert(b.subrange(p, p + 1)[0] == b[p]);
    assert(b.subrange(p + 1, p + 9) =~= eb.subrange(1, 9));
    assert(eb.subrange(1, 9) =~= kb);
    assert(b.subrange(p + 9, p + 17) =~= eb.subrange(9, 17));
    assert(eb.subrange(9, 17) =~= vb);
    let kl = e.0.len() as int;
    let vl = e.1.len() as int;
    assert(b.subrange(p + 17, p + 17 + kl) =~= eb.subrange(17, 17 + kl));
    assert(eb.subrange(17, 17 + kl) =~= e.0);
    assert(b.subrange(p + 17 + kl, p + 17 + kl + vl) =~= eb.subrange(17 + kl, 17 + kl + vl));
    assert(eb.subrange(17 + kl, 17 + kl + vl) =~= e.1);
}

/// The dump of one entry.
proof fn lemma_one_entry_bytes(e: (Seq<u8>, Seq<u8>))
    ensures
        entries_bytes(seq![e]) == entry_bytes(e),
{
    assert(seq![e].drop_last() =~= Seq::<(Seq<u8>, Seq<u8>)>::empty());
    assert(seq![e].last() == e);
    assert(entries_bytes(Seq::<(Seq<u8>, Seq<u8>)>::empty()) =~= Seq::<u8>::empty());
    assert(Seq::<u8>::empty() + entry_bytes(e) =~= entry_bytes(e));
}

/// In a dump, entry `i` stands right after the entries before it.
proof fn lemma_entry_position(es: Seq<(Seq<u8>, Seq<u8>)>, i: int)
    requires
        0 <= i < es.len(),
    ensures
        ({
            let b = dump_bytes(es);
            let p: int = 16 + entries_bytes(es.take(i)).len() as int;
            let eb = entry_bytes(es[i]);
            &&& p + eb.len() < b.len()
            &&& b.subrange(p, p + eb.len() as int) == eb
            &&& p + eb.len() == 16 + entries_bytes(es.take(i + 1)).len()
        }),
{
    let b = dump_bytes(es);
    let e = es[i];
    let head = entries_bytes(es.take(i));
    let eb = entry_bytes(e);
    let tail = entries_bytes(es.skip(i + 1));
    lemma_entries_bytes_concat(es.take(i), seq![e]);
    lemma_entries_bytes_concat(es.take(i + 1), es.skip(i + 1));
    lemma_one_entry_bytes(e);
    assert(es.take(i) + seq![e] =~= es.take(i + 1));
    assert(es.take(i + 1) + es.skip(i + 1) =~= es);
    assert(b =~= (dump_magic() + dump_version() + head) + eb + (tail + seq![255u8]));
    let p: int = 16 + head.len() as int;
    assert(b.subrange(p, p + eb.len() as int) =~= eb);
}

/// Where the end marker stands at `p`, reading entries from `p` gives none
/// and ends well.
proof fn lemma_read_end(b: Seq<u8>, p: int)
    requires
        0 <= p < b.len(),
        b[p] == 255u8,
    ensures
        dump_entries_at(b, p) == (Seq::<(Seq<u8>, Seq<u8>)>::empty(), Ok::<(), Seq<char>>(())),
{
    assert(b.subrange(p, p + 1)[0] == b[p]);
}

/// The end marker stands after all the entries of a dump.
proof fn lemma_end_position(es: Seq<(Seq<u8>, Seq<u8>)>)
    ensures
        ({
            let b = dump_bytes(es);
            let p: int = 16 + entries_bytes(es).len() as int;
            p < b.len() && b[p] == 255u8
        }),
{
}

/// Reading the entries of a dump from the start of entry `i` gives the
/// entries from `i` on, and ends well.
proof fn lemma_dump_entries_from(es: Seq<(Seq<u8>, Seq<u8>)>, i: int)
    requires
        0 <= i <= es.len(),
        lengths_fit(es),
    ensures
        dump_entries_at(dump_bytes(es), 16 + entries_bytes(es.take(i)).len() as int) == (
            es.skip(i),
            Ok::<(), Seq<char>>(()),
        ),
    decreases es.len() - i,
{
    let b = dump_bytes(es);
    let p: int = 16 + entries_bytes(es.take(i)).len() as int;
    if i == es.len() {
        assert(es.take(i) =~= es);
        assert(es.skip(i) =~= Seq::<(Seq<u8>, Seq<u8>)>::empty());
        lemma_end_position(es);
        lemma_read_end(b, p);
    } else {
        let e = es[i];
        lemma_entry_position(es, i);
        lemma_read_entry(b, p, e);
        lemma_dump_entries_from(es, i + 1);
        assert(seq![e] + es.skip(i + 1) =~= es.skip(i));
    }
}

/// Loading what saving wrote gives back every entry, in order, and ends
/// well; loaded into an empty store, they make the store that was saved.
pub proof fn law_load_after_save(es: Seq<(Seq<u8>, Seq<u8>)>)
    requires
        lengths_fit(es),
    ensures
        dump_contents(dump_bytes(es)) == (es, Ok::<(), Seq<char>>(())),
        insert_all(Map::empty(), dump_contents(dump_bytes(es)).0) == crate::store::entries_map(es),
{
    let b = dump_bytes(es);
    assert(b.subrange(0, 8) =~= dump_magic());
    assert(b.subrange(8, 16) =~= dump_version());
    lemma_dump_entries_from(es, 0);
    assert(es.take(0) =~= Seq::<(Seq<u8>, Seq<u8>)>::empty());
    assert(es.skip(0) =~= es);
}

/// Loading distinct entries into an empty store keeps them as they are, in
/// their order.
proof fn lemma_loading_distinct(es: Seq<(Seq<u8>, Seq<u8>)>)
    requires
        distinct_keys(es),
    ensures
        entries_after_loading(Seq::empty(), es) == es,
    decreases es.len(),
{
    if es.len() > 0 {
        let init = es.drop_last();
        assert(distinct_keys(init)) by {
            assert forall|a: int, b: int|
                0 <= a < init.len() && 0 <= b < init.len() && a != b implies (#[trigger] init[a]).0
                != (#[trigger] init[b]).0 by {
                assert(init[a] == es[a] && init[b] == es[b]);
            }
        }
        lemma_loading_distinct(init);
        assert(!crate::store::has_key(init, es.last().0)) by {
            if crate::store::has_key(init, es.last().0) {
                let i = choose|i: int| 0 <= i < init.len() && (#[trigger] init[i]).0 == es.last().0;
                assert(es[i].0 == es[es.len() - 1].0);
            }
        }
        assert(init.push(es.last()) =~= es);
    }
}

/// Saving a store and loading the dump into an empty one gives the same
/// entries in the same order, and so the same map.
pub proof fn law_save_then_load_restores_store(es: Seq<(Seq<u8>, Seq<u8>)>)
    requires
        distinct_keys(es),
        lengths_fit(es),
    ensures
        dump_contents(dump_bytes(es)).1 is Ok,
        entries_after_loading(Seq::empty(), dump_contents(dump_bytes(es)).0) == es,
        insert_all(Map::empty(), dump_contents(dump_bytes(es)).0) == crate::store::entries_map(es),
{
    law_load_after_save(es);
    lemma_loading_distinct(es);
}

} // verus!

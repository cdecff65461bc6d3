//! Resolving key encoding ids.

use vstd::prelude::*;
use vstd::string::*;

use super::{AsciiEncoding, Int64Encoding, SharedEncoding, UlidEncoding, Uuidv7Encoding};
use crate::error::{Error, ErrorKind, Words};

verus! {

/// Key bytes an error message may describe.
///
/// A key is as long as the file says it is, and a message that renders two of them in
/// full is memory spent outside the budget before anything can cut it back down. Enough
/// to tell two keys apart in a diagnostic is enough.
const DESCRIBE_KEY_BYTES: usize = 48;

/// The bounded rendering of a key for an error message.
pub open spec fn described(encoding: SharedEncoding, key: Seq<u8>) -> Seq<char> {
    if key.len() <= 48 {
        encoding.inner.rendered(key)
    } else {
        encoding.inner.rendered(key.subrange(0, 48)) + "... ("@ + crate::error::decimal(key.len())
            + " bytes)"@
    }
}

/// Renders a key for an error message, bounded.
pub fn describe_key(encoding: &SharedEncoding, key: &[u8]) -> (r: String)
    ensures
        r@ == described(*encoding, key@),
{
    if key.len() <= DESCRIBE_KEY_BYTES {
        return encoding.inner.format_key(key);
    }
    let mut short = encoding.inner.format_key(
        vstd::slice::slice_subrange(key, 0, DESCRIBE_KEY_BYTES),
    );
    short.append("... (");
    crate::error::push_decimal(&mut short, key.len() as u64);
    short.append(" bytes)");
    short
}

/// Whether an id names a built-in encoding.
pub open spec fn is_builtin(id: Seq<char>) -> bool {
    id == "i64"@ || id == "ascii"@ || id == "uuidv7"@ || id == "ulid"@
}

/// Whether an encoding is the built-in of that id.
pub open spec fn builtin_behaviour(id: Seq<char>, e: SharedEncoding) -> bool {
    &&& id == "i64"@ ==> e.behaves_like(Int64Encoding)
    &&& id == "ascii"@ ==> e.behaves_like(AsciiEncoding)
    &&& id == "uuidv7"@ ==> e.behaves_like(Uuidv7Encoding)
    &&& id == "ulid"@ ==> e.behaves_like(UlidEncoding)
}

/// The built-in ids are four different ids.
proof fn lemma_builtin_ids_differ()
    ensures
        "i64"@ != "ascii"@,
        "i64"@ != "uuidv7"@,
        "i64"@ != "ulid"@,
        "ascii"@ != "uuidv7"@,
        "ascii"@ != "ulid"@,
        "uuidv7"@ != "ulid"@,
{
    reveal_strlit("i64");
    reveal_strlit("ascii");
    reveal_strlit("uuidv7");
    reveal_strlit("ulid");
    assert("i64"@.len() == 3);
    assert("ascii"@.len() == 5);
    assert("uuidv7"@.len() == 6);
    assert("ulid"@.len() == 4);
}

fn builtin(id: &str) -> (r: Option<SharedEncoding>)
    ensures
        r is Some <==> is_builtin(id@),
        r matches Some(e) ==> builtin_behaviour(id@, e),
{
    proof {
        lemma_builtin_ids_differ();
    }
    let id = id.to_owned();
    if id == "i64".to_owned() {
        Some(SharedEncoding::int64())
    } else if id == "ascii".to_owned() {
        Some(SharedEncoding::ascii())
    } else if id == "uuidv7".to_owned() {
        Some(SharedEncoding::uuidv7())
    } else if id == "ulid".to_owned() {
        Some(SharedEncoding::ulid())
    } else {
        None
    }
}

/// Resolves key encoding ids to implementations.
///
/// Built-in ids resolve without registration. Custom encodings are registered per
/// database, so no process-wide mutable state decides how a file is read.
pub struct EncodingRegistry {
    custom: Vec<SharedEncoding>,
}

impl Default for EncodingRegistry {
    fn default() -> (r: Self)
        ensures
            r@ == Map::<Seq<char>, SharedEncoding>::empty(),
    {
        EncodingRegistry::new()
    }
}

impl View for EncodingRegistry {
    type V = Map<Seq<char>, SharedEncoding>;

    /// The registered encodings by id.
    closed spec fn view(&self) -> Map<Seq<char>, SharedEncoding> {
        registered(self.custom@)
    }
}

/// The encodings of a list by id, a later one replacing an earlier one.
spec fn registered(list: Seq<SharedEncoding>) -> Map<Seq<char>, SharedEncoding>
    decreases list.len(),
{
    if list.len() == 0 {
        Map::empty()
    } else {
        registered(list.drop_last()).insert(list.last().inner.name(), list.last())
    }
}

/// What a list resolves an id to: the last entry with that id.
proof fn lemma_registered(list: Seq<SharedEncoding>, id: Seq<char>, at: int)
    requires
        0 <= at <= list.len(),
        forall|j: int| at <= j < list.len() ==> (#[trigger] list[j]).inner.name() != id,
    ensures
        at == 0 ==> !registered(list).contains_key(id),
        at > 0 && list[at - 1].inner.name() == id ==> registered(list).contains_key(id)
            && registered(list)[id] == list[at - 1],
    decreases list.len(),
{
    if at < list.len() {
        lemma_registered(list.drop_last(), id, at);
    }
}

impl Clone for EncodingRegistry {
    fn clone(&self) -> (r: Self)
        ensures
            r@ == self@,
    {
        let mut custom: Vec<SharedEncoding> = Vec::new();
        let mut i: usize = 0;
        while i < self.custom.len()
            invariant
                i <= self.custom@.len(),
                custom@ == self.custom@.subrange(0, i as int),
            decreases self.custom@.len() - i,
        {
            custom.push(self.custom[i].clone());
            i += 1;
            proof {
                assert(custom@ =~= self.custom@.subrange(0, i as int));
            }
        }
        proof {
            assert(custom@ =~= self.custom@);
        }
        EncodingRegistry { custom }
    }
}

impl EncodingRegistry {
    /// An empty registry; built-ins still resolve.
    pub fn new() -> (r: Self)
        ensures
            r@ == Map::<Seq<char>, SharedEncoding>::empty(),
    {
        EncodingRegistry { custom: Vec::new() }
    }

    /// Registers a custom encoding, replacing any previous one with the same id.
    ///
    /// Built-in ids cannot be shadowed: a file that says `i64` always means the
    /// built-in `i64`.
    pub fn register(&mut self, encoding: SharedEncoding) -> (r: Result<(), Error>)
        ensures
            match r {
                Ok(_) => !is_builtin(encoding.inner.name()) && final(self)@ == old(self)@.insert(
                    encoding.inner.name(),
                    encoding,
                ),
                Err(e) => is_builtin(encoding.inner.name()) && *final(self) == *old(self)
                    && e.kind() == ErrorKind::InvalidArgument,
            },
    {
        if builtin(encoding.inner.id()).is_some() {
            return Err(
                Error::invalid_words(
                    Words::new("`")
                        .say(encoding.inner.id())
                        .say("` is a built-in key encoding and cannot be replaced"),
                ),
            );
        }
        self.custom.push(encoding);
        proof {
            assert(self.custom@.drop_last() =~= old(self).custom@);
        }
        Ok(())
    }

    /// Resolves an id, or reports [`ErrorKind::UnknownEncoding`].
    pub fn resolve(&self, id: &str) -> (r: Result<SharedEncoding, Error>)
        ensures
            match r {
                Ok(e) => if is_builtin(id@) {
                    builtin_behaviour(id@, e)
                } else {
                    self@.contains_key(id@) && self@[id@] == e
                },
                Err(e) => !is_builtin(id@) && !self@.contains_key(id@) && e.kind()
                    == ErrorKind::UnknownEncoding,
            },
    {
        if let Some(e) = builtin(id) {
            return Ok(e);
        }
        let wanted = id.to_owned();
        let mut i: usize = self.custom.len();
        while i > 0
            invariant
                i <= self.custom@.len(),
                wanted@ == id@,
                !is_builtin(id@),
                forall|j: int|
                    i <= j < self.custom@.len() ==> (#[trigger] self.custom@[j]).inner.name()
                        != id@,
            decreases i,
        {
            i -= 1;
            if self.custom[i].inner.id().to_owned() == wanted {
                proof {
                    lemma_registered(self.custom@, id@, i + 1);
                }
                return Ok(self.custom[i].clone());
            }
        }
        proof {
            lemma_registered(self.custom@, id@, 0);
        }
        Err(
            Error::from_text(
                ErrorKind::UnknownEncoding,
                Words::new("key encoding `")
                    .say(id)
                    .say("` is not registered")
                    .end(),
            ),
        )
    }
}

/// A key is told in full up to 48 bytes, and a longer one by its first 48 and how many there are.
pub proof fn lemma_described(encoding: SharedEncoding, key: Seq<u8>)
    ensures
        key.len() <= 48 ==> described(encoding, key) == encoding.inner.rendered(key),
        key.len() > 48 ==> described(encoding, key) == encoding.inner.rendered(key.take(48))
            + "... ("@ + crate::error::decimal(key.len()) + " bytes)"@,
{
    if key.len() > 48 {
        assert(key.take(48) =~= key.subrange(0, 48));
    }
}

} // verus!

//! A key-value store, the example state machine.
use std::collections::HashMap;

use vstd::prelude::*;
use vstd::string::StringExecFns;

use crate::state_machine::StateMachine;
use crate::types::log;
use crate::types::snapshot::SnapshotData;

verus! {

/// An operation against the store, as replicated through the log.
///
/// `Get` is among them so a read is ordered against writes by going through consensus like any
/// other command, at the cost of a full round trip.
#[derive(Debug, PartialEq, Eq)]
pub enum KvCommand {
    Get { key: String },
    Put { key: String, value: String },
    Delete { key: String },
}

/// What an operation stands for.
#[verifier::ext_equal]
#[allow(inconsistent_fields)]
pub enum KvCommandView {
    Get { key: Seq<char> },
    Put { key: Seq<char>, value: Seq<char> },
    Delete { key: Seq<char> },
}

impl View for KvCommand {
    type V = KvCommandView;

    open spec fn view(&self) -> KvCommandView {
        match *self {
            KvCommand::Get { key } => KvCommandView::Get { key: key@ },
            KvCommand::Put { key, value } => KvCommandView::Put { key: key@, value: value@ },
            KvCommand::Delete { key } => KvCommandView::Delete { key: key@ },
        }
    }
}

impl Clone for KvCommand {
    fn clone(&self) -> (copy: Self)
        ensures
            copy@ == self@,
    {
        match self {
            KvCommand::Get { key } => KvCommand::Get { key: key.clone() },
            KvCommand::Put { key, value } => KvCommand::Put {
                key: key.clone(),
                value: value.clone(),
            },
            KvCommand::Delete { key } => KvCommand::Delete { key: key.clone() },
        }
    }
}

/// A copy of a command is the same command, so the store can be replicated.
pub proof fn law_commands_survive_copying()
    ensures
        log::clone_keeps_view::<KvCommand>(),
{
}

/// What applying a `KvCommand` produced.
#[derive(Debug, PartialEq, Eq)]
pub enum KvResult {
    /// A write completed. `Delete` reports this whether or not the key existed.
    Done,
    /// A read completed, with `None` when the key is absent.
    Value(Option<String>),
}

impl Clone for KvResult {
    fn clone(&self) -> (copy: Self)
        ensures
            copy == *self,
    {
        match self {
            KvResult::Done => KvResult::Done,
            KvResult::Value(None) => KvResult::Value(None),
            KvResult::Value(Some(value)) => KvResult::Value(Some(value.clone())),
        }
    }
}

/// The contents of a store.
pub type Contents = Map<Seq<char>, Seq<char>>;

/// The keys of an association list.
pub open spec fn keys_of(pairs: Seq<(String, String)>) -> Seq<Seq<char>> {
    Seq::new(pairs.len(), |i: int| pairs[i].0@)
}

/// The contents an association list with distinct keys stands for.
pub open spec fn contents_of(pairs: Seq<(String, String)>) -> Contents {
    Map::new(
        |key: Seq<char>| keys_of(pairs).contains(key),
        |key: Seq<char>| pairs[keys_of(pairs).index_of(key)].1@,
    )
}

proof fn lemma_contents_at(pairs: Seq<(String, String)>, i: int)
    requires
        keys_of(pairs).no_duplicates(),
        0 <= i < pairs.len(),
    ensures
        contents_of(pairs).dom().contains(pairs[i].0@),
        contents_of(pairs)[pairs[i].0@] == pairs[i].1@,
{
    let keys = keys_of(pairs);
    assert(keys[i] == pairs[i].0@);
    assert(keys.contains(pairs[i].0@));
    let j = keys.index_of(pairs[i].0@);
    assert(keys[j] == keys[i]);
}

/// The position of `key` in an association list.
fn find(pairs: &Vec<(String, String)>, key: &String) -> (pos: Option<usize>)
    ensures
        pos is Some <==> keys_of(pairs@).contains(key@),
        pos matches Some(i) ==> i < pairs.len() && pairs[i as int].0@ == key@,
{
    let ghost keys = keys_of(pairs@);
    let mut i: usize = 0;
    while i < pairs.len()
        invariant
            i <= pairs.len(),
            keys == keys_of(pairs@),
            forall|k: int| 0 <= k < i ==> keys[k] != key@,
        decreases pairs.len() - i,
    {
        if pairs[i].0 == *key {
            assert(keys[i as int] == key@);
            return Some(i);
        }
        i = i + 1;
    }
    None
}

/// In-memory key-value store, the example state machine driven by the log.
pub struct KvStore {
    data: Vec<(String, String)>,
}

impl View for KvStore {
    type V = Contents;

    closed spec fn view(&self) -> Contents {
        contents_of(self.data@)
    }
}

/// The contents after a command.
pub open spec fn after_command(contents: Contents, command: KvCommandView) -> Contents {
    match command {
        KvCommandView::Get { .. } => contents,
        KvCommandView::Put { key, value } => contents.insert(key, value),
        KvCommandView::Delete { key } => contents.remove(key),
    }
}

/// Whether `result` is what a command produces in a store with these contents.
pub open spec fn produces(contents: Contents, command: KvCommandView, result: KvResult) -> bool {
    match command {
        KvCommandView::Get { key } => match result {
            KvResult::Done => false,
            KvResult::Value(None) => !contents.dom().contains(key),
            KvResult::Value(Some(value)) => contents.dom().contains(key) && contents[key]
                == value@,
        },
        _ => result == KvResult::Done,
    }
}

/// A put and a delete change one key and nothing else, and a get changes nothing. What is replicated is
/// the contents of the store.
pub proof fn law_writes_touch_one_key(
    store: KvStore,
    contents: Contents,
    key: Seq<char>,
    value: Seq<char>,
    other: Seq<char>,
)
    requires
        other != key,
    ensures
        store.state() == store@,
        <KvStore as StateMachine<KvCommand>>::next_state(contents, KvCommandView::Get { key })
            == contents,
        ({
            let after = <KvStore as StateMachine<KvCommand>>::next_state(
                contents,
                KvCommandView::Put { key, value },
            );
            &&& after.dom().contains(key)
            &&& after[key] == value
            &&& after.dom().contains(other) <==> contents.dom().contains(other)
            &&& contents.dom().contains(other) ==> after[other] == contents[other]
        }),
        ({
            let after = <KvStore as StateMachine<KvCommand>>::next_state(
                contents,
                KvCommandView::Delete { key },
            );
            &&& !after.dom().contains(key)
            &&& after.dom().contains(other) <==> contents.dom().contains(other)
            &&& contents.dom().contains(other) ==> after[other] == contents[other]
        }),
{
}

/// A get answers with what was put last under its key, or that there is nothing where that was deleted
/// or never put. Puts and deletes answer that they are done.
pub proof fn law_reads_see_the_latest_write(
    contents: Contents,
    key: Seq<char>,
    value: Seq<char>,
    result: KvResult,
)
    ensures
        <KvStore as StateMachine<KvCommand>>::answers(
            <KvStore as StateMachine<KvCommand>>::next_state(
                contents,
                KvCommandView::Put { key, value },
            ),
            KvCommandView::Get { key },
            result,
        ) <==> (result matches KvResult::Value(Some(found)) && found@ == value),
        <KvStore as StateMachine<KvCommand>>::answers(
            <KvStore as StateMachine<KvCommand>>::next_state(
                contents,
                KvCommandView::Delete { key },
            ),
            KvCommandView::Get { key },
            result,
        ) <==> result == KvResult::Value(None),
        <KvStore as StateMachine<KvCommand>>::answers(
            contents,
            KvCommandView::Get { key },
            result,
        ) <==> (result matches KvResult::Value(found) && match found {
            Some(v) => contents.dom().contains(key) && contents[key] == v@,
            None => !contents.dom().contains(key),
        }),
        <KvStore as StateMachine<KvCommand>>::answers(
            contents,
            KvCommandView::Put { key, value },
            result,
        ) <==> result == KvResult::Done,
        <KvStore as StateMachine<KvCommand>>::answers(
            contents,
            KvCommandView::Delete { key },
            result,
        ) <==> result == KvResult::Done,
{
}

impl KvStore {
    #[verifier::type_invariant]
    spec fn inv(self) -> bool {
        keys_of(self.data@).no_duplicates()
    }

    /// An empty store.
    pub fn new() -> (store: Self)
        ensures
            store@ == Contents::empty(),
    {
        let store = KvStore { data: Vec::new() };
        assert(store@ =~= Contents::empty());
        store
    }

    /// Applies one command and returns its result. Deterministic, as every replica must reach the
    /// same state from the same sequence of commands.
    pub fn apply(&mut self, command: KvCommand) -> (result: KvResult)
        ensures
            final(self)@ == after_command(old(self)@, command@),
            produces(old(self)@, command@, result),
            match command {
                KvCommand::Get { key } => {
                    &&& final(self)@ == old(self)@
                    &&& result matches KvResult::Value(found) && match found {
                        Some(value) => old(self)@.dom().contains(key@) && value@ == old(
                            self,
                        )@[key@],
                        None => !old(self)@.dom().contains(key@),
                    }
                },
                KvCommand::Put { key, value } => {
                    &&& result == KvResult::Done
                    &&& final(self)@.dom().contains(key@)
                    &&& final(self)@[key@] == value@
                    &&& forall|other: Seq<char>|
                        #![trigger final(self)@.dom().contains(other)]
                        other != key@ ==> {
                            &&& final(self)@.dom().contains(other) <==> old(self)@.dom().contains(
                                other,
                            )
                            &&& final(self)@.dom().contains(other) ==> final(self)@[other] == old(
                                self,
                            )@[other]
                        }
                },
                KvCommand::Delete { key } => {
                    &&& result == KvResult::Done
                    &&& !final(self)@.dom().contains(key@)
                    &&& forall|other: Seq<char>|
                        #![trigger final(self)@.dom().contains(other)]
                        other != key@ ==> {
                            &&& final(self)@.dom().contains(other) <==> old(self)@.dom().contains(
                                other,
                            )
                            &&& final(self)@.dom().contains(other) ==> final(self)@[other] == old(
                                self,
                            )@[other]
                        }
                },
            },
    {
        match command {
            KvCommand::Get { key } => KvResult::Value(self.get(&key)),
            KvCommand::Put { key, value } => {
                self.set(key, value);
                KvResult::Done
            },
            KvCommand::Delete { key } => {
                self.delete(&key);
                KvResult::Done
            },
        }
    }

    fn get(&self, key: &String) -> (value: Option<String>)
        ensures
            value is Some <==> self@.dom().contains(key@),
            value matches Some(v) ==> v@ == self@[key@],
    {
        proof {
            use_type_invariant(self);
        }
        match find(&self.data, key) {
            Some(i) => {
                proof {
                    lemma_contents_at(self.data@, i as int);
                }
                Some(self.data[i].1.clone())
            },
            None => None,
        }
    }

    fn delete(&mut self, key: &String)
        ensures
            final(self)@ == old(self)@.remove(key@),
    {
        proof {
            use_type_invariant(&*self);
        }
        let ghost before = self.data@;
        let mut data: Vec<(String, String)> = Vec::new();
        match find(&self.data, key) {
            None => {
                assert(self@ =~= self@.remove(key@));
                return ;
            },
            Some(i) => {
                std::mem::swap(&mut data, &mut self.data);
                data.remove(i);
                proof {
                    lemma_removed(before, data@, i as int);
                }
            },
        }
        self.data = data;
    }

    fn set(&mut self, key: String, value: String)
        ensures
            final(self)@ == old(self)@.insert(key@, value@),
    {
        self.delete(&key);
        proof {
            use_type_invariant(&*self);
        }
        let ghost before = self.data@;
        let mut data: Vec<(String, String)> = Vec::new();
        std::mem::swap(&mut data, &mut self.data);
        data.push((key, value));
        proof {
            let keys = keys_of(before);
            let more = keys_of(data@);
            assert(more =~= keys.push(key@));
            assert(!keys.contains(key@)) by {
                assert(contents_of(before).dom().contains(key@) <==> keys.contains(key@));
            }
            assert(more.no_duplicates());
            assert forall|k: Seq<char>| more.contains(k) <==> keys.contains(k) || k == key@ by {
                if keys.contains(k) {
                    let i = choose|i: int| 0 <= i < keys.len() && keys[i] == k;
                    assert(more[i] == k);
                }
                assert(more[before.len() as int] == key@);
            }
            let want = contents_of(before).insert(key@, value@);
            assert forall|k: Seq<char>| more.contains(k) implies contents_of(data@)[k]
                == want[k] by {
                let i = choose|i: int| 0 <= i < more.len() && more[i] == k;
                lemma_contents_at(data@, i);
                if i < before.len() {
                    lemma_contents_at(before, i);
                    assert(keys[i] == k);
                }
            }
            assert(contents_of(data@) =~= want);
            assert(contents_of(before).insert(key@, value@) =~= contents_of(before).remove(
                key@,
            ).insert(key@, value@));
        }
        self.data = data;
    }
}

proof fn lemma_removed(before: Seq<(String, String)>, after: Seq<(String, String)>, i: int)
    requires
        keys_of(before).no_duplicates(),
        0 <= i < before.len(),
        after == before.remove(i),
    ensures
        keys_of(after).no_duplicates(),
        contents_of(after) == contents_of(before).remove(before[i].0@),
{
    let keys = keys_of(before);
    let rest = keys_of(after);
    assert(rest =~= keys.remove(i));
    assert forall|a: int, b: int| 0 <= a < rest.len() && 0 <= b < rest.len() && a
        != b implies rest[a] != rest[b] by {
        let a2 = if a < i {
            a
        } else {
            a + 1
        };
        let b2 = if b < i {
            b
        } else {
            b + 1
        };
        assert(keys[a2] != keys[b2]);
    }
    let want = contents_of(before).remove(before[i].0@);
    assert forall|k: Seq<char>| contents_of(after).dom().contains(k) <==> want.dom().contains(k) by {
        if rest.contains(k) {
            let a = choose|a: int| 0 <= a < rest.len() && rest[a] == k;
            let a2 = if a < i {
                a
            } else {
                a + 1
            };
            assert(keys[a2] == k);
            assert(keys[i] != k);
        }
        if want.dom().contains(k) {
            let a = choose|a: int| 0 <= a < keys.len() && keys[a] == k;
            if a < i {
                assert(rest[a] == k);
            } else {
                assert(rest[a - 1] == k);
            }
        }
    }
    assert forall|k: Seq<char>| contents_of(after).dom().contains(k) implies contents_of(after)[k]
        == want[k] by {
        let a = choose|a: int| 0 <= a < rest.len() && rest[a] == k;
        let a2 = if a < i {
            a
        } else {
            a + 1
        };
        assert(after[a] == before[a2]);
        assert(after[a].0@ == k);
        assert(keys[a2] == k && keys[i] != k);
        lemma_contents_at(after, a);
        lemma_contents_at(before, a2);
    }
    assert(contents_of(after) =~= want);
}

impl Default for KvStore {
    fn default() -> (store: Self)
        ensures
            store@ == Contents::empty(),
    {
        KvStore::new()
    }
}

/// Any error of `serde_json`.
#[verifier::external_type_specification]
#[verifier::external_body]
pub struct ExJsonError(serde_json::Error);

/// The fields of the JSON object that `serde_json::from_slice` reads from `bytes`, each with the
/// JSON text of its value as it stands there, or `None` where it reads none.
pub uninterp spec fn json_object(bytes: Seq<u8>) -> Option<Contents>;

/// The fields of the JSON object with string values that `serde_json::from_slice` reads from `bytes`
/// as the only element of an array, or `None` where it reads none.
pub uninterp spec fn json_single(bytes: Seq<u8>) -> Option<Contents>;

/// The fields of the JSON object with string values that `serde_json::from_str` reads from `text`,
/// or `None` where it reads none.
pub uninterp spec fn json_strings(text: Seq<char>) -> Option<Contents>;

/// Reads a JSON object with `serde_json::from_slice`, and the value of each field as a `RawValue`: the
/// text between its delimiters, which is checked to be JSON in UTF-8 and not interpreted. The keys are
/// distinct, the last of several fields with the same key being kept, and the whole result is a
/// function of the bytes.
#[verifier::external_body]
fn read_object(bytes: &[u8]) -> (result: Result<Vec<(String, String)>, serde_json::Error>)
    ensures
        result is Ok <==> json_object(bytes@) is Some,
        result matches Ok(fields) ==> keys_of(fields@).no_duplicates() && json_object(bytes@)
            == Some(contents_of(fields@)),
{
    let fields: HashMap<String, Box<serde_json::value::RawValue>> = serde_json::from_slice(bytes)?;
    Ok(fields.into_iter().map(|(key, value)| (key, value.get().to_owned())).collect())
}

/// Reads an array that holds a JSON object with string values, and nothing else, with
/// `serde_json::from_slice`. The keys are distinct, and the whole result is a function of the bytes.
#[verifier::external_body]
fn read_single(bytes: &[u8]) -> (result: Result<Vec<(String, String)>, serde_json::Error>)
    ensures
        result is Ok <==> json_single(bytes@) is Some,
        result matches Ok(fields) ==> keys_of(fields@).no_duplicates() && json_single(bytes@)
            == Some(contents_of(fields@)),
{
    let (fields,): (HashMap<String, String>,) = serde_json::from_slice(bytes)?;
    Ok(fields.into_iter().collect())
}

/// Reads a JSON object with string values with `serde_json::from_str`. The keys are distinct, and
/// the whole result is a function of the text.
#[verifier::external_body]
fn read_strings(text: &str) -> (result: Result<Vec<(String, String)>, serde_json::Error>)
    ensures
        result is Ok <==> json_strings(text@) is Some,
        result matches Ok(fields) ==> keys_of(fields@).no_duplicates() && json_strings(text@)
            == Some(contents_of(fields@)),
{
    let fields: HashMap<String, String> = serde_json::from_str(text)?;
    Ok(fields.into_iter().collect())
}

/// Writes, with `serde_json::to_vec`, a JSON object with the single field `key`, whose value is the
/// object with the fields `pairs`. A map with string keys and string values can always be written,
/// and reading the result gives those fields back. The order in which they are written is not
/// stated.
#[verifier::external_body]
fn write_nested(key: &str, pairs: &Vec<(String, String)>) -> (result: Result<
    Vec<u8>,
    serde_json::Error,
>)
    requires
        keys_of(pairs@).no_duplicates(),
    ensures
        result is Ok,
        result matches Ok(bytes) ==> (json_object(bytes@) matches Some(fields) && fields.dom()
            == set![key@] && json_strings(fields[key@]) == Some(contents_of(pairs@))),
{
    let fields: HashMap<&String, &String> = pairs.iter().map(|(k, v)| (k, v)).collect();
    serde_json::to_vec(&HashMap::from([(key, fields)]))
}

/// Failure to serialize or deserialize a `KvStore` snapshot.
#[derive(Debug)]
pub enum KvSnapshotError {
    /// The bytes are not JSON of the right shape.
    Json(serde_json::Error),
    /// The JSON object has no field with the entries of a store.
    MissingEntries,
}

impl From<serde_json::Error> for KvSnapshotError {
    fn from(error: serde_json::Error) -> (e: Self) {
        KvSnapshotError::Json(error)
    }
}

impl vstd::std_specs::convert::FromSpecImpl<serde_json::Error> for KvSnapshotError {
    open spec fn obeys_from_spec() -> bool {
        true
    }

    open spec fn from_spec(error: serde_json::Error) -> Self {
        KvSnapshotError::Json(error)
    }
}

/// The contents that a snapshot holds: those of its field `entries`, or, where the fields are written
/// as an array, of its only element.
pub open spec fn decoded_contents(data: Seq<u8>) -> Option<Contents> {
    match json_object(data) {
        Some(fields) => if fields.dom().contains("entries"@) {
            json_strings(fields["entries"@])
        } else {
            None
        },
        None => json_single(data),
    }
}

/// Whether a snapshot is an object with no field for the entries.
pub open spec fn lacks_entries(data: Seq<u8>) -> bool {
    json_object(data) matches Some(fields) && !fields.dom().contains("entries"@)
}

/// The text of the field `entries`.
pub fn entries_field(fields: &Vec<(String, String)>) -> (text: Option<String>)
    requires
        keys_of(fields@).no_duplicates(),
    ensures
        text is Some <==> contents_of(fields@).dom().contains("entries"@),
        text matches Some(t) ==> t@ == contents_of(fields@)["entries"@],
{
    let key = String::from_str("entries");
    match find(fields, &key) {
        Some(i) => {
            proof {
                lemma_contents_at(fields@, i as int);
            }
            Some(fields[i].1.clone())
        },
        None => None,
    }
}

impl StateMachine<KvCommand> for KvStore {
    type Output = KvResult;

    type SnapshotError = KvSnapshotError;

    type State = Contents;

    open spec fn state(&self) -> Contents {
        self@
    }

    open spec fn next_state(state: Contents, command: KvCommandView) -> Contents {
        after_command(state, command)
    }

    open spec fn answers(state: Contents, command: KvCommandView, output: KvResult) -> bool {
        produces(state, command, output)
    }

    open spec fn decoded(data: Seq<u8>) -> Option<Contents> {
        decoded_contents(data)
    }

    open spec fn refuses(data: Seq<u8>, error: KvSnapshotError) -> bool {
        (error is MissingEntries) == lacks_entries(data)
    }

    fn apply(&mut self, command: KvCommand) -> (output: KvResult) {
        KvStore::apply(self, command)
    }

    fn snapshot(&self) -> (result: Result<SnapshotData, KvSnapshotError>)
        ensures
            result is Ok,
    {
        proof {
            use_type_invariant(self);
        }
        match write_nested("entries", &self.data) {
            Ok(bytes) => Ok(SnapshotData::new(bytes)),
            Err(e) => Err(KvSnapshotError::from(e)),
        }
    }

    fn restore(&mut self, data: &SnapshotData) -> (result: Result<(), KvSnapshotError>)
        ensures
            result is Err ==> final(self)@ == old(self)@,
    {
        let fields = match read_object(data.as_bytes()) {
            Ok(fields) => fields,
            Err(e) => {
                return match read_single(data.as_bytes()) {
                    Ok(entries) => {
                        self.data = entries;
                        Ok(())
                    },
                    Err(_) => Err(KvSnapshotError::from(e)),
                };
            },
        };
        let text = match entries_field(&fields) {
            Some(text) => text,
            None => {
                return Err(KvSnapshotError::MissingEntries);
            },
        };
        let entries = match read_strings(text.as_str()) {
            Ok(entries) => entries,
            Err(e) => {
                return Err(KvSnapshotError::from(e));
            },
        };
        self.data = entries;
        Ok(())
    }
}

} // verus!

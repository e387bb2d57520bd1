//! The collection database: a version and a list of named collections, read
//! from and written to its byte layout.

use crate::error::DecodeError;
use crate::laws::{lemma_collections_bytes_push, lemma_string_end, lemma_strings_bytes_push};
use crate::osu_reader::OsuReader;
use crate::osu_writer::OsuWriter;
use crate::wire::{
    announced, collection_bytes, collection_fits, collections_bytes, document_bytes,
    document_fits, parse_collection, parse_collections, parse_document, parse_strings,
    strings_bytes, text_fits, CollectionView, DocumentView, Parsed,
};
use vstd::prelude::*;

verus! {

/// The character sequences of a list of strings.
pub open spec fn texts(strings: Seq<String>) -> Seq<Seq<char>> {
    strings.map_values(|s: String| s@)
}

/// The mathematical values of a list of collections.
pub open spec fn collection_views(entries: Seq<OsuCollection>) -> Seq<CollectionView> {
    entries.map_values(|c: OsuCollection| c@)
}

/// The items read so far followed by what reading the remaining ones gives.
spec fn followed_by<T>(done: Seq<T>, rest: Parsed<Seq<T>>) -> Parsed<Seq<T>> {
    match rest {
        Ok((items, end)) => Ok((done + items, end)),
        Err(e) => Err(e),
    }
}

/// A named, ordered list of beatmap hashes.  `map_count` is stored beside the
/// list and written as a field of its own.
#[derive(Debug)]
pub struct OsuCollection {
    pub name: String,
    pub map_count: i32,
    pub map_hashes: Vec<String>,
}

impl View for OsuCollection {
    type V = CollectionView;

    open spec fn view(&self) -> CollectionView {
        CollectionView {
            name: self.name@,
            map_count: self.map_count,
            map_hashes: texts(self.map_hashes@),
        }
    }
}

impl OsuCollection {
    /// Whether the stored count is the number of hashes.
    pub open spec fn counted(&self) -> bool {
        self.map_count == self.map_hashes@.len()
    }

    /// An empty collection called `name`.
    pub fn new(name: String) -> (collection: OsuCollection)
        ensures
            collection@ == (CollectionView {
                name: name@,
                map_count: 0,
                map_hashes: Seq::empty(),
            }),
            collection.counted(),
    {
        let collection = OsuCollection { name, map_count: 0, map_hashes: Vec::new() };
        assert(collection@.map_hashes =~= Seq::empty());
        collection
    }

    /// Appends a copy of `map_hash` to the hashes and counts it.
    pub fn add_map(&mut self, map_hash: &String)
        requires
            old(self).map_count < i32::MAX,
        ensures
            final(self)@ == (CollectionView {
                name: old(self)@.name,
                map_count: (old(self).map_count + 1) as i32,
                map_hashes: old(self)@.map_hashes.push(map_hash@),
            }),
            old(self).counted() ==> final(self).counted(),
    {
        self.map_hashes.push(map_hash.clone());
        self.map_count += 1;
        assert(self@.map_hashes =~= old(self)@.map_hashes.push(map_hash@));
    }

    /// Whether every string of the collection is short enough for its length
    /// to be written.
    pub fn fits(&self) -> (yes: bool)
        ensures
            yes == collection_fits(self@),
    {
        if !is_short(&self.name) {
            return false;
        }
        let mut i: usize = 0;
        while i < self.map_hashes.len()
            invariant
                i <= self.map_hashes.len(),
                text_fits(self@.name),
                forall|k: int| 0 <= k < i ==> text_fits(#[trigger] self@.map_hashes[k]),
            decreases self.map_hashes.len() - i,
        {
            if !is_short(&self.map_hashes[i]) {
                assert(!text_fits(self@.map_hashes[i as int]));
                return false;
            }
            i += 1;
        }
        true
    }
}

/// A version number and the collections in file order.
#[derive(Debug)]
pub struct OsuCollections {
    pub version: i32,
    pub entries: Vec<OsuCollection>,
}

impl View for OsuCollections {
    type V = DocumentView;

    open spec fn view(&self) -> DocumentView {
        DocumentView { version: self.version, entries: collection_views(self.entries@) }
    }
}

impl OsuCollections {
    /// Decodes a document from the start of `buffer`.  Fails when the buffer
    /// ends before a field is complete or a string length has too many groups;
    /// bytes after the last entry are ignored.
    #[verifier::loop_isolation(false)]
    pub fn read(buffer: Vec<u8>) -> (result: Result<OsuCollections, DecodeError>)
        ensures
            match parse_document(buffer@) {
                Ok((document, _)) => result matches Ok(decoded) && decoded@ == document,
                Err(e) => result matches Err(error) && error == e,
            },
    {
        let ghost bytes = buffer@;
        let mut reader = OsuReader::new(buffer);
        let version = match reader.read_i32() {
            Ok(version) => version,
            Err(e) => {
                return Err(e);
            },
        };
        let count = match reader.read_i32() {
            Ok(count) => count,
            Err(e) => {
                return Err(e);
            },
        };
        let ghost whole = parse_collections(bytes, reader.position(), announced(count));
        let mut entries: Vec<OsuCollection> = Vec::new();
        let mut i: i32 = 0;
        while i < count
            invariant
                reader.bytes() == bytes,
                0 <= i,
                i <= announced(count),
                whole == followed_by(
                    collection_views(entries@),
                    parse_collections(bytes, reader.position(), (announced(count) - i) as nat),
                ),
            decreases count - i,
        {
            let ghost done = collection_views(entries@);
            let entry = match read_collection(&mut reader) {
                Ok(entry) => entry,
                Err(e) => {
                    return Err(e);
                },
            };
            entries.push(entry);
            i += 1;
            proof {
                let rest = parse_collections(
                    bytes,
                    reader.position(),
                    (announced(count) - i) as nat,
                );
                if let Ok((items, end)) = rest {
                    assert(done + (seq![entry@] + items) =~= collection_views(entries@) + items);
                }
            }
        }
        assert(collection_views(entries@) + Seq::<CollectionView>::empty() =~= collection_views(
            entries@,
        ));
        Ok(OsuCollections { version, entries })
    }

    /// Appends a copy of `collection` after the entries already there.
    pub fn add_collection(&mut self, collection: &OsuCollection)
        ensures
            final(self)@ == (DocumentView {
                version: old(self)@.version,
                entries: old(self)@.entries.push(collection@),
            }),
            final(self).entries@.len() == old(self).entries@.len() + 1,
            forall|i: int|
                0 <= i < old(self).entries@.len() ==> final(self).entries@[i] == old(self).entries@[i],
    {
        let map_hashes = collection.map_hashes.clone();
        assert(texts(map_hashes@) =~= texts(collection.map_hashes@));
        self.entries.push(
            OsuCollection {
                name: collection.name.clone(),
                map_count: collection.map_count,
                map_hashes,
            },
        );
        assert(self@.entries =~= old(self)@.entries.push(collection@));
    }

    /// Whether the document can be written: the number of entries fits the
    /// 32-bit count field, and every string is short enough for its length to
    /// be written.
    pub fn fits(&self) -> (yes: bool)
        ensures
            yes == document_fits(self@),
    {
        if self.entries.len() > i32::MAX as usize {
            return false;
        }
        let mut i: usize = 0;
        while i < self.entries.len()
            invariant
                i <= self.entries.len(),
                self.entries.len() <= i32::MAX,
                forall|k: int| 0 <= k < i ==> collection_fits(#[trigger] self@.entries[k]),
            decreases self.entries.len() - i,
        {
            if !self.entries[i].fits() {
                assert(!collection_fits(self@.entries[i as int]));
                return false;
            }
            i += 1;
        }
        true
    }

    /// Encodes the document: version, number of entries, then every entry in
    /// order.
    pub fn write(&self) -> (bytes: Vec<u8>)
        requires
            document_fits(self@),
        ensures
            bytes@ == document_bytes(self@),
    {
        let mut writer = OsuWriter::new();
        writer.write_i32(self.version);
        writer.write_i32(self.entries.len() as i32);
        let ghost head = writer@;
        let mut i: usize = 0;
        while i < self.entries.len()
            invariant
                i <= self.entries.len(),
                document_fits(self@),
                writer@ == head + collections_bytes(collection_views(self.entries@).take(i as int)),
            decreases self.entries.len() - i,
        {
            assert(collection_fits(self@.entries[i as int]));
            write_collection(&mut writer, &self.entries[i]);
            proof {
                let views = collection_views(self.entries@);
                assert(views.take(i + 1) =~= views.take(i as int).push(views[i as int]));
                lemma_collections_bytes_push(views.take(i as int), views[i as int]);
            }
            i += 1;
        }
        assert(collection_views(self.entries@).take(i as int) =~= self@.entries);
        assert(writer@ =~= document_bytes(self@));
        writer.buffer
    }
}

/// Whether `text` is short enough for its length to be written.
fn is_short(text: &String) -> (yes: bool)
    ensures
        yes == text_fits(text@),
{
    text.as_str().unicode_len() <= i32::MAX as usize
}

/// Reads one collection at the reader's position.  When that fails, the
/// reader is left where it was.
#[verifier::loop_isolation(false)]
fn read_collection(reader: &mut OsuReader) -> (result: Result<OsuCollection, DecodeError>)
    ensures
        match parse_collection(old(reader).bytes(), old(reader).position()) {
            Ok((collection, end)) => {
                &&& result matches Ok(decoded)
                &&& decoded@ == collection
                &&& OsuReader::advanced(old(reader), final(reader), end)
            },
            Err(e) => {
                &&& result matches Err(error)
                &&& error == e
                &&& OsuReader::advanced(old(reader), final(reader), old(reader).position())
            },
        },
{
    let ghost bytes = reader.bytes();
    let start = reader.offset();
    let name = match reader.read_string() {
        Ok(name) => name,
        Err(e) => {
            return Err(e);
        },
    };
    proof {
        lemma_string_end(bytes, start as int);
    }
    let map_count = match reader.read_i32() {
        Ok(map_count) => map_count,
        Err(e) => {
            reader.rewind(start);
            return Err(e);
        },
    };
    let ghost whole = parse_strings(bytes, reader.position(), announced(map_count));
    let mut map_hashes: Vec<String> = Vec::new();
    let mut i: i32 = 0;
    while i < map_count
        invariant
            reader.bytes() == bytes,
            start <= reader.position(),
            0 <= i,
            i <= announced(map_count),
            whole == followed_by(
                texts(map_hashes@),
                parse_strings(bytes, reader.position(), (announced(map_count) - i) as nat),
            ),
        decreases map_count - i,
    {
        let ghost done = texts(map_hashes@);
        let ghost here = reader.position();
        let map_hash = match reader.read_string() {
            Ok(map_hash) => map_hash,
            Err(e) => {
                reader.rewind(start);
                return Err(e);
            },
        };
        let ghost text = map_hash@;
        map_hashes.push(map_hash);
        i += 1;
        proof {
            lemma_string_end(bytes, here);
            let rest = parse_strings(
                bytes,
                reader.position(),
                (announced(map_count) - i) as nat,
            );
            if let Ok((items, end)) = rest {
                assert(done + (seq![text] + items) =~= texts(map_hashes@) + items);
            }
        }
    }
    assert(texts(map_hashes@) + Seq::<Seq<char>>::empty() =~= texts(map_hashes@));
    Ok(OsuCollection { name, map_count, map_hashes })
}

/// Writes one collection: its name, its stored count, then every hash in
/// order.
fn write_collection(writer: &mut OsuWriter, collection: &OsuCollection)
    requires
        collection_fits(collection@),
    ensures
        final(writer)@ == old(writer)@ + collection_bytes(collection@),
{
    writer.write_string(&collection.name);
    writer.write_i32(collection.map_count);
    let ghost head = writer@;
    let mut i: usize = 0;
    while i < collection.map_hashes.len()
        invariant
            i <= collection.map_hashes.len(),
            collection_fits(collection@),
            writer@ == head + strings_bytes(texts(collection.map_hashes@).take(i as int)),
        decreases collection.map_hashes.len() - i,
    {
        assert(text_fits(collection@.map_hashes[i as int]));
        writer.write_string(&collection.map_hashes[i]);
        proof {
            let all = texts(collection.map_hashes@);
            assert(all.take(i + 1) =~= all.take(i as int).push(all[i as int]));
            lemma_strings_bytes_push(all.take(i as int), all[i as int]);
        }
        i += 1;
    }
    assert(texts(collection.map_hashes@).take(i as int) =~= collection@.map_hashes);
    assert(writer@ =~= old(writer)@ + collection_bytes(collection@));
}

} // verus!

use crate::bytes::{append_bytes, be_value};
use crate::crc32c::{assert_crc32c_on_data, crc32c_checksum, read_crc32c};
use crate::errors::ParseError;
use crate::repeat::{
    lemma_repeat_end, lemma_repeat_fails, lemma_repeat_start, lemma_repeat_step, repeat_parse,
    repeat_progress,
};
use crate::symbol_table::bytes_of_strings;
use crate::uvarint::{lemma_uvarint_parse_len, read_uvarint, uvarint_parse};
use crate::varint::{read_varint, varint_parse};
use crate::xor::block_chunk_ref_of;
use vstd::prelude::*;
use vstd::slice::slice_subrange;
use vstd::utf8::encode_utf8;

verus! {

/// A label of a series as the index stores it: the numbers of two symbols.
#[derive(Debug, Clone, Copy, PartialEq, Eq, Structural)]
pub struct SerieLabel {
    pub name_ref: u32,
    pub value_ref: u32,
}

/// A chunk of a series as the index lists it: the time range that it covers
/// and the reference of the chunk in the chunks files.
#[derive(Debug, Clone, Copy, PartialEq, Eq, Structural)]
pub struct SerieChunk {
    pub mint: i64,
    pub maxt: i64,
    pub data_ref: u64,
}

impl SerieChunk {
    /// The number of the chunks file that holds the chunk: the upper 32 bits
    /// of the reference.
    pub fn file_index(&self) -> (index: u64)
        ensures
            index == self.data_ref / 0x1_0000_0000,
            index == self.data_ref >> 32,
    {
        let data_ref: u64 = self.data_ref;
        assert(data_ref >> 32 == data_ref / 0x1_0000_0000) by (bit_vector);
        self.data_ref >> 32
    }

    /// The offset of the chunk's frame in its chunks file: the lower 32 bits
    /// of the reference.
    pub fn file_offset(&self) -> (offset: u64)
        ensures
            offset == self.data_ref % 0x1_0000_0000,
            offset == self.data_ref & 0xFFFF_FFFF,
    {
        let data_ref: u64 = self.data_ref;
        assert(data_ref & 0xFFFF_FFFF == data_ref % 0x1_0000_0000) by (bit_vector);
        self.data_ref & 0xFFFFFFFF
    }
}

/// File number and offset of a reference name the chunk that got the
/// reference when its chunks file was read.
pub proof fn lemma_data_ref_parts(data_ref: u64)
    ensures
        block_chunk_ref_of(data_ref >> 32, data_ref & 0xFFFF_FFFF) == data_ref,
{
    assert(((data_ref >> 32) << 32) | (data_ref & 0xFFFF_FFFF) == data_ref) by (bit_vector);
}

/// A reference that was made of a file number and an offset, each of at
/// most 32 bits, gives both back.
pub proof fn lemma_block_chunk_ref_parts(file_index: u64, offset: u64)
    requires
        file_index <= 0xFFFF_FFFF,
        offset <= 0xFFFF_FFFF,
    ensures
        block_chunk_ref_of(file_index, offset) >> 32 == file_index,
        block_chunk_ref_of(file_index, offset) & 0xFFFF_FFFF == offset,
{
    assert(((file_index << 32) | offset) >> 32 == file_index) by (bit_vector)
        requires
            file_index <= 0xFFFF_FFFF,
            offset <= 0xFFFF_FFFF,
    ;
    assert(((file_index << 32) | offset) & 0xFFFF_FFFF == offset) by (bit_vector)
        requires
            file_index <= 0xFFFF_FFFF,
            offset <= 0xFFFF_FFFF,
    ;
}

// ------------------------------------------------------------ byte order
/// Whether `a` comes before `b` in the order of strings: byte by byte, a
/// prefix before what it is a prefix of.
pub open spec fn bytes_less(a: Seq<u8>, b: Seq<u8>) -> bool
    decreases a.len(),
{
    if b.len() == 0 {
        false
    } else if a.len() == 0 {
        true
    } else if a[0] != b[0] {
        a[0] < b[0]
    } else {
        bytes_less(a.skip(1), b.skip(1))
    }
}

/// How two byte sequences stand to each other in the order of strings.
#[derive(Debug, Clone, Copy, PartialEq, Eq, Structural)]
pub enum ByteOrder {
    Less,
    Equal,
    Greater,
}

/// No sequence comes before itself.
pub proof fn lemma_bytes_less_irreflexive(a: Seq<u8>)
    ensures
        !bytes_less(a, a),
    decreases a.len(),
{
    if a.len() > 0 {
        lemma_bytes_less_irreflexive(a.skip(1));
    }
}

/// What comes before a sequence comes before all that it comes before.
pub proof fn lemma_bytes_less_transitive(a: Seq<u8>, b: Seq<u8>, c: Seq<u8>)
    requires
        bytes_less(a, b),
        bytes_less(b, c),
    ensures
        bytes_less(a, c),
    decreases a.len(),
{
    if a.len() > 0 && a[0] == b[0] && b[0] == c[0] {
        lemma_bytes_less_transitive(a.skip(1), b.skip(1), c.skip(1));
    }
}

/// How the order of two sequences follows from what lies behind a common
/// prefix of `k` bytes.
proof fn lemma_bytes_less_behind_prefix(a: Seq<u8>, b: Seq<u8>, k: int)
    requires
        0 <= k <= a.len(),
        k <= b.len(),
        forall|j: int| 0 <= j < k ==> a[j] == b[j],
    ensures
        bytes_less(a, b) == bytes_less(a.skip(k), b.skip(k)),
        (a == b) == (a.skip(k) == b.skip(k)),
    decreases k,
{
    if k > 0 {
        assert forall|j: int| 0 <= j < k - 1 implies a.skip(1)[j] == b.skip(1)[j] by {
            assert(a.skip(1)[j] == a[j + 1]);
            assert(b.skip(1)[j] == b[j + 1]);
        }
        lemma_bytes_less_behind_prefix(a.skip(1), b.skip(1), k - 1);
        assert(a.skip(1).skip(k - 1) =~= a.skip(k));
        assert(b.skip(1).skip(k - 1) =~= b.skip(k));
        if a.skip(k) == b.skip(k) {
            assert(a.len() == b.len()) by {
                assert(a.skip(k).len() == b.skip(k).len());
            }
            assert forall|j: int| 0 <= j < a.len() implies a[j] == b[j] by {
                if j >= k {
                    assert(a[j] == a.skip(k)[j - k]);
                    assert(b[j] == b.skip(k)[j - k]);
                }
            }
            assert(a =~= b);
        }
    } else {
        assert(a.skip(0) =~= a);
        assert(b.skip(0) =~= b);
    }
}

/// Compares two byte sequences in the order of strings.
pub fn compare_bytes(a: &[u8], b: &[u8]) -> (r: ByteOrder)
    ensures
        r == ByteOrder::Less <==> bytes_less(a@, b@),
        r == ByteOrder::Equal <==> a@ == b@,
        r == ByteOrder::Greater <==> bytes_less(b@, a@),
{
    let mut i: usize = 0;
    while i < a.len() && i < b.len()
        invariant
            i <= a@.len(),
            i <= b@.len(),
            forall|j: int| 0 <= j < i ==> a@[j] == b@[j],
        decreases a@.len() - i,
    {
        if a[i] != b[i] {
            proof {
                lemma_bytes_less_behind_prefix(a@, b@, i as int);
                lemma_bytes_less_behind_prefix(b@, a@, i as int);
                assert(a@.skip(i as int)[0] == a@[i as int]);
                assert(b@.skip(i as int)[0] == b@[i as int]);
            }
            if a[i] < b[i] {
                return ByteOrder::Less;
            } else {
                return ByteOrder::Greater;
            }
        }
        i = i + 1;
    }
    proof {
        lemma_bytes_less_behind_prefix(a@, b@, i as int);
        lemma_bytes_less_behind_prefix(b@, a@, i as int);
        if a@.len() == b@.len() {
            assert(a@.skip(i as int) =~= b@.skip(i as int));
        }
    }
    if a.len() < b.len() {
        ByteOrder::Less
    } else if a.len() > b.len() {
        ByteOrder::Greater
    } else {
        ByteOrder::Equal
    }
}

// ---------------------------------------------------------------- labels
/// The bytes of the name of a label.
pub open spec fn label_name(label: (String, String)) -> Seq<u8> {
    encode_utf8(label.0@)
}

/// The bytes of the value of a label.
pub open spec fn label_value(label: (String, String)) -> Seq<u8> {
    encode_utf8(label.1@)
}

/// Whether the names of a list of labels rise strictly in the order of
/// strings, so that no name occurs twice.
pub open spec fn labels_sorted(labels: Seq<(String, String)>) -> bool {
    forall|i: int, j: int|
        0 <= i < j < labels.len() ==> bytes_less(
            #[trigger] label_name(labels[i]),
            #[trigger] label_name(labels[j]),
        )
}

/// The map from names to values that a list of labels stands for.
pub open spec fn labels_map(labels: Seq<(String, String)>) -> Map<Seq<u8>, Seq<u8>> {
    Map::new(
        |name: Seq<u8>| exists|i: int| 0 <= i < labels.len() && label_name(labels[i]) == name,
        |name: Seq<u8>|
            label_value(
                labels[choose|i: int| 0 <= i < labels.len() && label_name(labels[i]) == name],
            ),
    )
}

/// Whether every label refers to symbols that the table holds.
pub open spec fn labels_resolve(refs: Seq<SerieLabel>, symbols: Seq<Seq<u8>>) -> bool {
    forall|i: int|
        0 <= i < refs.len() ==> (#[trigger] refs[i]).name_ref < symbols.len() && refs[i].value_ref
            < symbols.len()
}

/// The map from names to values that labels stand for under a symbol table.
/// Where a name occurs twice, the later value counts.
pub open spec fn resolved_labels(refs: Seq<SerieLabel>, symbols: Seq<Seq<u8>>) -> Map<
    Seq<u8>,
    Seq<u8>,
>
    decreases refs.len(),
{
    if refs.len() == 0 {
        Map::empty()
    } else {
        resolved_labels(refs.drop_last(), symbols).insert(
            symbols[refs.last().name_ref as int],
            symbols[refs.last().value_ref as int],
        )
    }
}

/// In a sorted list a name is listed once: the map gives the value that
/// stands beside it.
proof fn lemma_labels_map_at(labels: Seq<(String, String)>, i: int)
    requires
        labels_sorted(labels),
        0 <= i < labels.len(),
    ensures
        labels_map(labels).dom().contains(label_name(labels[i])),
        labels_map(labels)[label_name(labels[i])] == label_value(labels[i]),
{
    let name = label_name(labels[i]);
    let c = choose|c: int| 0 <= c < labels.len() && label_name(labels[c]) == name;
    lemma_bytes_less_irreflexive(name);
    if c < i {
        assert(bytes_less(label_name(labels[c]), label_name(labels[i])));
    } else if i < c {
        assert(bytes_less(label_name(labels[i]), label_name(labels[c])));
    }
}

/// Putting a label into a sorted list at the place of its name keeps the
/// list sorted and adds the label to the map.
proof fn lemma_insert_label(
    labels: Seq<(String, String)>,
    place: int,
    label: (String, String),
)
    requires
        labels_sorted(labels),
        0 <= place <= labels.len(),
        forall|j: int| 0 <= j < place ==> bytes_less(label_name(labels[j]), label_name(label)),
        place < labels.len() ==> bytes_less(label_name(label), label_name(labels[place])),
    ensures
        labels_sorted(labels.insert(place, label)),
        labels_map(labels.insert(place, label)) == labels_map(labels).insert(
            label_name(label),
            label_value(label),
        ),
{
    let after = labels.insert(place, label);
    let name = label_name(label);
    assert forall|j: int| place <= j < labels.len() implies bytes_less(
        name,
        label_name(labels[j]),
    ) by {
        if j > place {
            assert(bytes_less(label_name(labels[place]), label_name(labels[j])));
            lemma_bytes_less_transitive(name, label_name(labels[place]), label_name(labels[j]));
        }
    }
    assert forall|i: int, j: int| 0 <= i < j < after.len() implies bytes_less(
        #[trigger] label_name(after[i]),
        #[trigger] label_name(after[j]),
    ) by {
        let a = if i < place {
            i
        } else {
            i - 1
        };
        let b = if j < place {
            j
        } else {
            j - 1
        };
        if i != place && j != place {
            assert(after[i] == labels[a]);
            assert(after[j] == labels[b]);
            assert(bytes_less(label_name(labels[a]), label_name(labels[b])));
        } else if i == place {
            assert(after[j] == labels[b]);
        } else {
            assert(after[i] == labels[a]);
        }
    }
    let left = labels_map(after);
    let right = labels_map(labels).insert(name, label_value(label));
    assert forall|q: Seq<u8>| left.dom().contains(q) == right.dom().contains(q) by {
        if left.dom().contains(q) {
            let j = choose|j: int| 0 <= j < after.len() && label_name(after[j]) == q;
            if j != place {
                let b = if j < place {
                    j
                } else {
                    j - 1
                };
                assert(after[j] == labels[b]);
            }
        }
        if right.dom().contains(q) && q != name {
            let b = choose|b: int| 0 <= b < labels.len() && label_name(labels[b]) == q;
            let j = if b < place {
                b
            } else {
                b + 1
            };
            assert(after[j] == labels[b]);
        }
        if q == name {
            assert(after[place] == label);
        }
    }
    assert forall|q: Seq<u8>| left.dom().contains(q) implies left[q] == right[q] by {
        let j = choose|j: int| 0 <= j < after.len() && label_name(after[j]) == q;
        lemma_labels_map_at(after, j);
        if j == place {
            assert(after[place] == label);
        } else {
            let b = if j < place {
                j
            } else {
                j - 1
            };
            assert(after[j] == labels[b]);
            lemma_labels_map_at(labels, b);
            lemma_bytes_less_irreflexive(name);
        }
    }
    assert(left =~= right);
}

/// Putting a new value beside a name that a sorted list holds keeps the
/// list sorted and changes the value in the map.
proof fn lemma_replace_label(labels: Seq<(String, String)>, place: int, label: (String, String))
    requires
        labels_sorted(labels),
        0 <= place < labels.len(),
        label_name(labels[place]) == label_name(label),
    ensures
        labels_sorted(labels.update(place, label)),
        labels_map(labels.update(place, label)) == labels_map(labels).insert(
            label_name(label),
            label_value(label),
        ),
{
    let after = labels.update(place, label);
    let name = label_name(label);
    assert forall|i: int, j: int| 0 <= i < j < after.len() implies bytes_less(
        #[trigger] label_name(after[i]),
        #[trigger] label_name(after[j]),
    ) by {
        assert(label_name(after[i]) == label_name(labels[i]));
        assert(label_name(after[j]) == label_name(labels[j]));
        assert(bytes_less(label_name(labels[i]), label_name(labels[j])));
    }
    let left = labels_map(after);
    let right = labels_map(labels).insert(name, label_value(label));
    assert forall|q: Seq<u8>| left.dom().contains(q) == right.dom().contains(q) by {
        if left.dom().contains(q) {
            let j = choose|j: int| 0 <= j < after.len() && label_name(after[j]) == q;
            assert(label_name(after[j]) == label_name(labels[j]));
        }
        if right.dom().contains(q) && q != name {
            let b = choose|b: int| 0 <= b < labels.len() && label_name(labels[b]) == q;
            assert(label_name(after[b]) == label_name(labels[b]));
        }
        if q == name {
            assert(label_name(after[place]) == name);
        }
    }
    assert forall|q: Seq<u8>| left.dom().contains(q) implies left[q] == right[q] by {
        let j = choose|j: int| 0 <= j < after.len() && label_name(after[j]) == q;
        lemma_labels_map_at(after, j);
        if j != place {
            assert(after[j] == labels[j]);
            lemma_labels_map_at(labels, j);
            lemma_bytes_less_irreflexive(name);
            if j < place {
                assert(bytes_less(label_name(labels[j]), label_name(labels[place])));
            } else {
                assert(bytes_less(label_name(labels[place]), label_name(labels[j])));
            }
        }
    }
    assert(left =~= right);
}

/// Puts a label into a sorted list: at the place of its name, or in place of
/// the label of the same name.
fn insert_label(labels: &mut Vec<(String, String)>, name: String, value: String)
    requires
        labels_sorted(old(labels)@),
    ensures
        labels_sorted(final(labels)@),
        labels_map(final(labels)@) == labels_map(old(labels)@).insert(
            encode_utf8(name@),
            encode_utf8(value@),
        ),
{
    let mut place: usize = 0;
    let mut found: bool = false;
    while place < labels.len()
        invariant_except_break
            !found,
        invariant
            place <= labels@.len(),
            labels@ == old(labels)@,
            forall|j: int|
                0 <= j < place ==> bytes_less(label_name(labels@[j]), encode_utf8(name@)),
        ensures
            place <= labels@.len(),
            labels@ == old(labels)@,
            forall|j: int|
                0 <= j < place ==> bytes_less(label_name(labels@[j]), encode_utf8(name@)),
            found ==> place < labels@.len() && label_name(labels@[place as int]) == encode_utf8(
                name@,
            ),
            !found && place < labels@.len() ==> bytes_less(
                encode_utf8(name@),
                label_name(labels@[place as int]),
            ),
        decreases labels@.len() - place,
    {
        let order = compare_bytes(labels[place].0.as_str().as_bytes(), name.as_str().as_bytes());
        match order {
            ByteOrder::Less => {
                place = place + 1;
            },
            ByteOrder::Equal => {
                found = true;
                break ;
            },
            ByteOrder::Greater => {
                break ;
            },
        }
    }
    let label: (String, String) = (name, value);
    if found {
        proof {
            lemma_replace_label(labels@, place as int, label);
        }
        labels.set(place, label);
    } else {
        proof {
            lemma_insert_label(labels@, place as int, label);
        }
        labels.insert(place, label);
    }
}

/// A series as the index stores it, before its labels are looked up.
#[derive(Debug)]
pub struct SerieTmp {
    pub labels: Vec<SerieLabel>,
    pub chunks: Vec<SerieChunk>,
}

/// A series: its labels, sorted by name, and its chunks.
#[derive(Debug)]
pub struct Serie {
    labels: Vec<(String, String)>,
    chunks: Vec<SerieChunk>,
}

/// The bytes that the hash of a series is taken of: of each label in turn
/// the name, a byte 0xff, the value, a byte 0xff.
pub open spec fn label_stream(labels: Seq<(String, String)>) -> Seq<u8>
    decreases labels.len(),
{
    if labels.len() == 0 {
        Seq::empty()
    } else {
        label_stream(labels.drop_last()) + label_name(labels.last()) + seq![0xffu8] + label_value(
            labels.last(),
        ) + seq![0xffu8]
    }
}

/// The XXH64 hash of a byte sequence under a seed.
pub uninterp spec fn xxh64_hash(input: Seq<u8>, seed: u64) -> u64;

/// `xxhash_rust::xxh64::xxh64`: the hash is a function of bytes and seed.
#[verifier::external_body]
fn xxh64_of(input: &[u8], seed: u64) -> (hash: u64)
    ensures
        hash == xxh64_hash(input@, seed),
{
    xxhash_rust::xxh64::xxh64(input, seed)
}

impl Serie {
    /// The labels of a series are sorted by name.
    #[verifier::type_invariant]
    spec fn labels_are_sorted(&self) -> bool {
        labels_sorted(self.labels@)
    }

    /// The labels of the series, by rising name.
    pub closed spec fn labels_of(&self) -> Seq<(String, String)> {
        self.labels@
    }

    /// The chunks of the series.
    pub closed spec fn chunks_of(&self) -> Seq<SerieChunk> {
        self.chunks@
    }

    /// Whether the series is well formed: its labels are sorted by name.
    pub open spec fn well_formed(&self) -> bool {
        labels_sorted(self.labels_of())
    }

    /// The labels of the series, by rising name.
    pub fn labels(&self) -> (labels: &[(String, String)])
        ensures
            labels@ == self.labels_of(),
            labels_sorted(labels@),
    {
        proof {
            use_type_invariant(self);
        }
        self.labels.as_slice()
    }

    /// The chunks of the series.
    pub fn chunks(&self) -> (chunks: &[SerieChunk])
        ensures
            chunks@ == self.chunks_of(),
    {
        self.chunks.as_slice()
    }

    /// The hash that names the series: XXH64 with seed 0 over the labels
    /// in the order of their names.
    pub fn get_xx_hash(&self) -> (hash: u64)
        ensures
            hash == xxh64_hash(label_stream(self.labels_of()), 0),
    {
        let mut stream: Vec<u8> = Vec::new();
        let mut i: usize = 0;
        while i < self.labels.len()
            invariant
                i <= self.labels@.len(),
                stream@ == label_stream(self.labels@.take(i as int)),
            decreases self.labels@.len() - i,
        {
            let ghost before = stream@;
            append_bytes(&mut stream, self.labels[i].0.as_str().as_bytes());
            stream.push(0xff);
            append_bytes(&mut stream, self.labels[i].1.as_str().as_bytes());
            stream.push(0xff);
            proof {
                let upto = self.labels@.take(i + 1);
                assert(upto.drop_last() =~= self.labels@.take(i as int));
                assert(upto.last() == self.labels@[i as int]);
                assert(stream@ =~= label_stream(upto));
            }
            i = i + 1;
        }
        proof {
            assert(self.labels@.take(self.labels@.len() as int) =~= self.labels@);
        }
        xxh64_of(stream.as_slice(), 0)
    }
}

impl SerieTmp {
    /// Looks the labels up in the symbol table. Fails where a label refers
    /// to a symbol that the table does not hold.
    pub fn finalise(self, symbols: &[String]) -> (r: Result<Serie, ()>)
        ensures
            r is Ok <==> labels_resolve(self.labels@, bytes_of_strings(symbols@)),
            r matches Ok(serie) ==> serie.well_formed() && labels_map(serie.labels_of())
                == resolved_labels(self.labels@, bytes_of_strings(symbols@)) && serie.chunks_of()
                == self.chunks@,
    {
        let ghost table = bytes_of_strings(symbols@);
        let mut labels: Vec<(String, String)> = Vec::new();
        let mut i: usize = 0;
        proof {
            assert(labels_map(labels@) =~= Map::<Seq<u8>, Seq<u8>>::empty());
            assert(self.labels@.take(0) =~= Seq::<SerieLabel>::empty());
        }
        while i < self.labels.len()
            invariant
                i <= self.labels@.len(),
                labels_sorted(labels@),
                table == bytes_of_strings(symbols@),
                labels_resolve(self.labels@.take(i as int), table),
                labels_map(labels@) == resolved_labels(self.labels@.take(i as int), table),
            decreases self.labels@.len() - i,
        {
            let label: SerieLabel = self.labels[i];
            let name_ref: usize = label.name_ref as usize;
            let value_ref: usize = label.value_ref as usize;
            if name_ref >= symbols.len() || value_ref >= symbols.len() {
                assert(self.labels@[i as int] == label);
                return Err(());
            }
            let name: String = symbols[name_ref].clone();
            let value: String = symbols[value_ref].clone();
            insert_label(&mut labels, name, value);
            proof {
                let upto = self.labels@.take(i + 1);
                assert(upto.drop_last() =~= self.labels@.take(i as int));
                assert(upto.last() == label);
                assert forall|j: int| 0 <= j < upto.len() implies (#[trigger] upto[j]).name_ref
                    < table.len() && upto[j].value_ref < table.len() by {
                    if j < i {
                        assert(upto[j] == self.labels@.take(i as int)[j]);
                    }
                }
            }
            i = i + 1;
        }
        proof {
            assert(self.labels@.take(self.labels@.len() as int) =~= self.labels@);
        }
        Ok(Serie { labels, chunks: self.chunks })
    }
}

// --------------------------------------------------------------- decoding
/// The parse of a label: the numbers of two symbols as uvarints, of each of
/// which the low 32 bits count.
pub open spec fn label_parse(input: Seq<u8>) -> Result<(SerieLabel, nat), ParseError> {
    match uvarint_parse(input) {
        Err(e) => Err(e),
        Ok((name, n)) => match uvarint_parse(input.skip(n as int)) {
            Err(e) => Err(e),
            Ok((value, m)) => Ok(
                (
                    SerieLabel {
                        name_ref: (name % 0x1_0000_0000) as u32,
                        value_ref: (value % 0x1_0000_0000) as u32,
                    },
                    n + m,
                ),
            ),
        },
    }
}

/// The parse of a label, as the item of a row.
pub open spec fn label_item() -> spec_fn(Seq<u8>) -> Result<(SerieLabel, nat), ParseError> {
    |input: Seq<u8>| label_parse(input)
}

/// The parse of the labels of a series: their number as a uvarint, then
/// the labels.
pub open spec fn series_labels_parse(input: Seq<u8>) -> Result<(Seq<SerieLabel>, nat), ParseError> {
    match uvarint_parse(input) {
        Err(e) => Err(e),
        Ok((count, n)) => match repeat_parse(label_item(), input.skip(n as int), count as nat) {
            Err(e) => Err(e),
            Ok((labels, m)) => Ok((labels, n + m)),
        },
    }
}

/// The parse of a chunk as the index writes it down: the start of its time
/// range as a varint, the length of the range and the reference as
/// uvarints. An end of the range beyond `i64::MAX` is `TooLarge`.
pub open spec fn raw_chunk_parse(input: Seq<u8>) -> Result<(SerieChunk, nat), ParseError> {
    match varint_parse(input) {
        Err(e) => Err(e),
        Ok((mint, a)) => match uvarint_parse(input.skip(a as int)) {
            Err(e) => Err(e),
            Ok((span, b)) => match uvarint_parse(input.skip((a + b) as int)) {
                Err(e) => Err(e),
                Ok((data_ref, c)) => if mint + span > i64::MAX {
                    Err(ParseError::TooLarge)
                } else {
                    Ok((SerieChunk { mint, maxt: (mint + span) as i64, data_ref }, a + b + c))
                },
            },
        },
    }
}

/// The parse of a chunk, as the item of a row.
pub open spec fn raw_chunk_item() -> spec_fn(Seq<u8>) -> Result<(SerieChunk, nat), ParseError> {
    |input: Seq<u8>| raw_chunk_parse(input)
}

/// The chunks that a list of written-down chunks stands for. The first is
/// as it was written; of every other, the time range is counted from the
/// end of the range before it and the reference from the reference before
/// it. A sum that does not fit its type is `TooLarge`.
pub open spec fn summed_chunks(raw: Seq<SerieChunk>) -> Result<Seq<SerieChunk>, ParseError>
    decreases raw.len(),
{
    if raw.len() <= 1 {
        Ok(raw)
    } else {
        match summed_chunks(raw.drop_last()) {
            Err(e) => Err(e),
            Ok(before) => {
                let mint = raw.last().mint + before.last().maxt;
                let maxt = raw.last().maxt + before.last().maxt;
                let data_ref = raw.last().data_ref + before.last().data_ref;
                if mint < i64::MIN || mint > i64::MAX || maxt < i64::MIN || maxt > i64::MAX
                    || data_ref > u64::MAX {
                    Err(ParseError::TooLarge)
                } else {
                    Ok(
                        before.push(
                            SerieChunk {
                                mint: mint as i64,
                                maxt: maxt as i64,
                                data_ref: data_ref as u64,
                            },
                        ),
                    )
                }
            },
        }
    }
}

/// The parse of the chunks of a series: their number as a uvarint, the
/// chunks as they are written down, summed up.
pub open spec fn series_chunks_parse(input: Seq<u8>) -> Result<(Seq<SerieChunk>, nat), ParseError> {
    match uvarint_parse(input) {
        Err(e) => Err(e),
        Ok((count, n)) => match repeat_parse(raw_chunk_item(), input.skip(n as int), count as nat) {
            Err(e) => Err(e),
            Ok((raw, m)) => match summed_chunks(raw) {
                Err(e) => Err(e),
                Ok(chunks) => Ok((chunks, n + m)),
            },
        },
    }
}

/// The parse of a series: the length of its data as a uvarint, its labels,
/// its chunks, and a CRC-32C, which is that of as many bytes behind the
/// length as the length says. Gives labels and chunks and the number of
/// bytes up to the end of the checksum.
#[verifier::opaque]
pub open spec fn serie_parse(input: Seq<u8>) -> Result<
    ((Seq<SerieLabel>, Seq<SerieChunk>), nat),
    ParseError,
> {
    match uvarint_parse(input) {
        Err(e) => Err(e),
        Ok((len, a)) => match series_labels_parse(input.skip(a as int)) {
            Err(e) => Err(e),
            Ok((labels, b)) => match series_chunks_parse(input.skip((a + b) as int)) {
                Err(e) => Err(e),
                Ok((chunks, c)) => {
                    let at = a + b + c;
                    if input.len() - at < 4 {
                        Err(ParseError::Truncated { needed: None })
                    } else if input.len() - a < len {
                        Err(
                            ParseError::Truncated {
                                needed: Some((len - (input.len() - a)) as u64),
                            },
                        )
                    } else if be_value(input.subrange(at as int, at as int + 4)) != crc32c_checksum(
                        input.subrange(a as int, a + len),
                    ) {
                        Err(ParseError::CrcMismatch)
                    } else {
                        Ok(((labels, chunks), at + 4))
                    }
                },
            },
        },
    }
}

fn read_label(input: &[u8]) -> (r: Result<(&[u8], SerieLabel), ParseError>)
    ensures
        match label_parse(input@) {
            Ok((label, n)) => r matches Ok((rest, found)) && found == label && n <= input@.len()
                && rest@ == input@.skip(n as int),
            Err(e) => r matches Err(err) && err == e,
        },
{
    let (after_name, name_ref) = match read_uvarint(input) {
        Ok(found) => found,
        Err(e) => {
            return Err(e);
        },
    };
    proof {
        lemma_uvarint_parse_len(input@);
    }
    let (rest, value_ref) = match read_uvarint(after_name) {
        Ok(found) => found,
        Err(e) => {
            return Err(e);
        },
    };
    proof {
        let n = uvarint_parse(input@).unwrap().1;
        let m = uvarint_parse(input@.skip(n as int)).unwrap().1;
        lemma_uvarint_parse_len(input@.skip(n as int));
        assert(input@.skip(n as int).skip(m as int) =~= input@.skip((n + m) as int));
    }
    Ok(
        (
            rest,
            SerieLabel {
                name_ref: (name_ref % 0x1_0000_0000) as u32,
                value_ref: (value_ref % 0x1_0000_0000) as u32,
            },
        ),
    )
}

fn read_series_labels(input: &[u8]) -> (r: Result<(&[u8], Vec<SerieLabel>), ParseError>)
    ensures
        match series_labels_parse(input@) {
            Ok((labels, n)) => r matches Ok((rest, found)) && found@ == labels && n <= input@.len()
                && rest@ == input@.skip(n as int),
            Err(e) => r matches Err(err) && err == e,
        },
{
    let (after_len, len) = match read_uvarint(input) {
        Ok(found) => found,
        Err(e) => {
            return Err(e);
        },
    };
    let ghost n = uvarint_parse(input@).unwrap().1;
    let mut labels: Vec<SerieLabel> = Vec::new();
    let mut cursor: &[u8] = after_len;
    let ghost mut used: nat = 0;
    let mut i: u64 = 0;
    proof {
        lemma_uvarint_parse_len(input@);
        lemma_repeat_start(label_item(), after_len@, len as nat);
    }
    while i < len
        invariant
            i <= len,
            cursor@ == after_len@.skip(used as int),
            uvarint_parse(input@) == Ok::<(u64, nat), ParseError>((len, n)),
            n <= input@.len(),
            after_len@ == input@.skip(n as int),
            labels@.len() == i,
            repeat_progress(label_item(), after_len@, len as nat, labels@, used),
        decreases len - i,
    {
        let ghost before = labels@;
        let (rest, label) = match read_label(cursor) {
            Ok(found) => found,
            Err(e) => {
                proof {
                    lemma_repeat_fails(label_item(), after_len@, len as nat, before, used);
                }
                return Err(e);
            },
        };
        let ghost m = label_parse(cursor@).unwrap().1;
        labels.push(label);
        proof {
            lemma_repeat_step(label_item(), after_len@, len as nat, before, used);
            assert(after_len@.skip(used as int).skip(m as int) =~= after_len@.skip(
                (used + m) as int,
            ));
            used = used + m;
        }
        cursor = rest;
        i = i + 1;
    }
    proof {
        lemma_repeat_end(label_item(), after_len@, len as nat, labels@, used);
        assert(input@.skip(n as int).skip(used as int) =~= input@.skip((n + used) as int));
    }
    Ok((cursor, labels))
}

fn read_raw_chunk(input: &[u8]) -> (r: Result<(&[u8], SerieChunk), ParseError>)
    ensures
        match raw_chunk_parse(input@) {
            Ok((chunk, n)) => r matches Ok((rest, found)) && found == chunk && n <= input@.len()
                && rest@ == input@.skip(n as int),
            Err(e) => r matches Err(err) && err == e,
        },
{
    let (after_mint, mint) = match read_varint(input) {
        Ok(found) => found,
        Err(e) => {
            return Err(e);
        },
    };
    let (after_span, span) = match read_uvarint(after_mint) {
        Ok(found) => found,
        Err(e) => {
            return Err(e);
        },
    };
    let ghost a = varint_parse(input@).unwrap().1;
    let ghost b = uvarint_parse(input@.skip(a as int)).unwrap().1;
    proof {
        lemma_uvarint_parse_len(input@);
        lemma_uvarint_parse_len(input@.skip(a as int));
        assert(input@.skip(a as int).skip(b as int) =~= input@.skip((a + b) as int));
    }
    let (rest, data_ref) = match read_uvarint(after_span) {
        Ok(found) => found,
        Err(e) => {
            return Err(e);
        },
    };
    proof {
        let c = uvarint_parse(input@.skip((a + b) as int)).unwrap().1;
        lemma_uvarint_parse_len(input@.skip((a + b) as int));
        assert(input@.skip((a + b) as int).skip(c as int) =~= input@.skip((a + b + c) as int));
    }
    let maxt: i128 = mint as i128 + span as i128;
    if maxt > i64::MAX as i128 {
        return Err(ParseError::TooLarge);
    }
    Ok((rest, SerieChunk { mint, maxt: maxt as i64, data_ref }))
}

/// Sums the chunks up in place: each after the first is counted from the
/// one before it.
fn sum_chunks(chunks: &mut Vec<SerieChunk>) -> (r: Result<(), ParseError>)
    ensures
        match summed_chunks(old(chunks)@) {
            Ok(summed) => r is Ok && final(chunks)@ == summed,
            Err(e) => r matches Err(err) && err == e,
        },
{
    let ghost raw = chunks@;
    let mut i: usize = 1;
    proof {
        if raw.len() >= 1 {
            assert(summed_chunks(raw.take(1)) == Ok::<Seq<SerieChunk>, ParseError>(raw.take(1)));
        } else {
            assert(raw.take(raw.len() as int) =~= raw);
        }
    }
    while i < chunks.len()
        invariant
            raw == old(chunks)@,
            chunks@.len() == raw.len(),
            1 <= i,
            i <= raw.len() || raw.len() == 0,
            raw.len() > 0 ==> summed_chunks(raw.take(i as int)) == Ok::<
                Seq<SerieChunk>,
                ParseError,
            >(chunks@.take(i as int)),
            forall|j: int| i <= j < raw.len() ==> chunks@[j] == raw[j],
        decreases raw.len() - i,
    {
        let previous: SerieChunk = chunks[i - 1];
        let current: SerieChunk = chunks[i];
        let ghost upto = raw.take(i + 1);
        proof {
            assert(upto.drop_last() =~= raw.take(i as int));
            assert(upto.last() == raw[i as int]);
            assert(chunks@.take(i as int).last() == previous);
        }
        let mint = match current.mint.checked_add(previous.maxt) {
            Some(sum) => sum,
            None => {
                proof {
                    lemma_summed_chunks_fails(raw, (i + 1) as nat);
                }
                return Err(ParseError::TooLarge);
            },
        };
        let maxt = match current.maxt.checked_add(previous.maxt) {
            Some(sum) => sum,
            None => {
                proof {
                    lemma_summed_chunks_fails(raw, (i + 1) as nat);
                }
                return Err(ParseError::TooLarge);
            },
        };
        let data_ref = match current.data_ref.checked_add(previous.data_ref) {
            Some(sum) => sum,
            None => {
                proof {
                    lemma_summed_chunks_fails(raw, (i + 1) as nat);
                }
                return Err(ParseError::TooLarge);
            },
        };
        let ghost before = chunks@;
        chunks.set(i, SerieChunk { mint, maxt, data_ref });
        proof {
            assert(chunks@.take(i + 1) =~= before.take(i as int).push(
                SerieChunk { mint, maxt, data_ref },
            ));
        }
        i = i + 1;
    }
    proof {
        if raw.len() > 0 {
            assert(raw.take(raw.len() as int) =~= raw);
            assert(chunks@.take(raw.len() as int) =~= chunks@);
        } else {
            assert(chunks@ =~= raw);
        }
    }
    Ok(())
}

/// Where the sums fail for the first `k` chunks, they fail for all.
proof fn lemma_summed_chunks_fails(raw: Seq<SerieChunk>, k: nat)
    requires
        k <= raw.len(),
        summed_chunks(raw.take(k as int)) is Err,
    ensures
        summed_chunks(raw) == summed_chunks(raw.take(k as int)),
    decreases raw.len() - k,
{
    if k < raw.len() {
        let longer = raw.take(k as int + 1);
        assert(longer.drop_last() =~= raw.take(k as int));
        lemma_summed_chunks_fails(raw, k + 1);
    } else {
        assert(raw.take(k as int) =~= raw);
    }
}

fn read_series_chunks(input: &[u8]) -> (r: Result<(&[u8], Vec<SerieChunk>), ParseError>)
    ensures
        match series_chunks_parse(input@) {
            Ok((chunks, n)) => r matches Ok((rest, found)) && found@ == chunks && n <= input@.len()
                && rest@ == input@.skip(n as int),
            Err(e) => r matches Err(err) && err == e,
        },
{
    let (after_len, len) = match read_uvarint(input) {
        Ok(found) => found,
        Err(e) => {
            return Err(e);
        },
    };
    let ghost n = uvarint_parse(input@).unwrap().1;
    let mut chunks: Vec<SerieChunk> = Vec::new();
    let mut cursor: &[u8] = after_len;
    let ghost mut used: nat = 0;
    let mut i: u64 = 0;
    proof {
        lemma_uvarint_parse_len(input@);
        lemma_repeat_start(raw_chunk_item(), after_len@, len as nat);
    }
    while i < len
        invariant
            i <= len,
            cursor@ == after_len@.skip(used as int),
            uvarint_parse(input@) == Ok::<(u64, nat), ParseError>((len, n)),
            n <= input@.len(),
            after_len@ == input@.skip(n as int),
            chunks@.len() == i,
            repeat_progress(raw_chunk_item(), after_len@, len as nat, chunks@, used),
        decreases len - i,
    {
        let ghost before = chunks@;
        let (rest, chunk) = match read_raw_chunk(cursor) {
            Ok(found) => found,
            Err(e) => {
                proof {
                    lemma_repeat_fails(raw_chunk_item(), after_len@, len as nat, before, used);
                }
                return Err(e);
            },
        };
        let ghost m = raw_chunk_parse(cursor@).unwrap().1;
        chunks.push(chunk);
        proof {
            lemma_repeat_step(raw_chunk_item(), after_len@, len as nat, before, used);
            assert(after_len@.skip(used as int).skip(m as int) =~= after_len@.skip(
                (used + m) as int,
            ));
            used = used + m;
        }
        cursor = rest;
        i = i + 1;
    }
    proof {
        lemma_repeat_end(raw_chunk_item(), after_len@, len as nat, chunks@, used);
        assert(input@.skip(n as int).skip(used as int) =~= input@.skip((n + used) as int));
    }
    match sum_chunks(&mut chunks) {
        Ok(_) => {},
        Err(e) => {
            return Err(e);
        },
    }
    Ok((cursor, chunks))
}

/// Reads a series from the start of `input` and returns the bytes that
/// follow its checksum together with the series.
pub fn read_serie(input: &[u8]) -> (r: Result<(&[u8], SerieTmp), ParseError>)
    ensures
        match serie_parse(input@) {
            Ok(((labels, chunks), n)) => r matches Ok((rest, serie)) && serie.labels@ == labels
                && serie.chunks@ == chunks && 7 <= n <= input@.len() && rest@ == input@.skip(
                n as int,
            ),
            Err(e) => r matches Err(err) && err == e,
        },
{
    reveal(serie_parse);
    let (after_len, serie_len) = match read_uvarint(input) {
        Ok(found) => found,
        Err(e) => {
            return Err(e);
        },
    };
    let ghost a = uvarint_parse(input@).unwrap().1;
    proof {
        lemma_uvarint_parse_len(input@);
    }
    let (after_labels, serie_labels) = match read_series_labels(after_len) {
        Ok(found) => found,
        Err(e) => {
            return Err(e);
        },
    };
    let ghost b = series_labels_parse(input@.skip(a as int)).unwrap().1;
    proof {
        assert(input@.skip(a as int).skip(b as int) =~= input@.skip((a + b) as int));
        lemma_uvarint_parse_len(input@.skip(a as int));
    }
    let (after_chunks, serie_chunks) = match read_series_chunks(after_labels) {
        Ok(found) => found,
        Err(e) => {
            return Err(e);
        },
    };
    let ghost c = series_chunks_parse(input@.skip((a + b) as int)).unwrap().1;
    proof {
        assert(input@.skip((a + b) as int).skip(c as int) =~= input@.skip((a + b + c) as int));
        lemma_uvarint_parse_len(input@.skip((a + b) as int));
    }
    let (remaining_input, expected_crc32c) = match read_crc32c(after_chunks) {
        Ok(found) => found,
        Err(e) => {
            return Err(e);
        },
    };
    let consumed: usize = input.len() - after_len.len();
    let have: usize = after_len.len();
    if (have as u64) < serie_len {
        return Err(ParseError::Truncated { needed: Some(serie_len - have as u64) });
    }
    proof {
        let at = a + b + c;
        assert(after_chunks@.take(4) =~= input@.subrange(at as int, at as int + 4));
        assert(remaining_input@ =~= input@.skip((at + 4) as int));
    }
    match assert_crc32c_on_data(input, consumed, serie_len as usize, expected_crc32c) {
        Ok(_) => {},
        Err(e) => {
            return Err(e);
        },
    }
    Ok((remaining_input, SerieTmp { labels: serie_labels, chunks: serie_chunks }))
}

/// A series that parses has at least seven bytes and lies within the input.
pub proof fn lemma_serie_parse_len(input: Seq<u8>)
    ensures
        serie_parse(input) matches Ok((_, n)) ==> 7 <= n <= input.len(),
{
    reveal(serie_parse);
    lemma_uvarint_parse_len(input);
    if let Ok((len, a)) = uvarint_parse(input) {
        lemma_uvarint_parse_len(input.skip(a as int));
        if let Ok((labels, b)) = series_labels_parse(input.skip(a as int)) {
            lemma_uvarint_parse_len(input.skip((a + b) as int));
        }
    }
}

/// How many bytes bring `n` bytes to a multiple of sixteen.
pub open spec fn padding_to_16(n: nat) -> nat {
    ((16 - n % 16) % 16) as nat
}

/// The parse of one series after the other, each filled up to a multiple
/// of sixteen bytes, from byte `pos` of `input` until `limit` bytes are
/// passed: the series and the byte at which the parse ends.
pub open spec fn series_from_parse(input: Seq<u8>, pos: nat, limit: nat) -> Result<
    (Seq<(Seq<SerieLabel>, Seq<SerieChunk>)>, nat),
    ParseError,
>
    decreases input.len() - pos,
{
    if pos >= limit {
        Ok((Seq::empty(), pos))
    } else if pos > input.len() {
        Err(ParseError::Truncated { needed: None })
    } else {
        match serie_parse(input.skip(pos as int)) {
            Err(e) => Err(e),
            Ok((serie, n)) => {
                proof {
                    lemma_serie_parse_len(input.skip(pos as int));
                }
                if input.len() - pos - n < padding_to_16(n) {
                    Err(ParseError::Truncated { needed: None })
                } else {
                    match series_from_parse(input, pos + n + padding_to_16(n), limit) {
                        Err(e) => Err(e),
                        Ok((others, end)) => Ok((seq![serie] + others, end)),
                    }
                }
            },
        }
    }
}

/// The parse of the series section, which lies from byte `start` to byte
/// `end` of the file and of which `input` holds the bytes from `start` on:
/// padding up to a multiple of sixteen, then series until the section is
/// passed. Gives the series and the number of bytes taken. A section that
/// ends before it starts is refused.
pub open spec fn series_parse(input: Seq<u8>, start: nat, end: nat) -> Result<
    (Seq<(Seq<SerieLabel>, Seq<SerieChunk>)>, nat),
    ParseError,
> {
    if input.len() < padding_to_16(start) {
        Err(ParseError::Truncated { needed: None })
    } else if end < start {
        Err(ParseError::Section)
    } else {
        series_from_parse(input, padding_to_16(start), (end - start) as nat)
    }
}

/// Whether series hold the labels and chunks that were parsed.
pub open spec fn series_hold(
    series: Seq<SerieTmp>,
    parsed: Seq<(Seq<SerieLabel>, Seq<SerieChunk>)>,
) -> bool {
    &&& series.len() == parsed.len()
    &&& forall|i: int|
        0 <= i < parsed.len() ==> (#[trigger] series[i]).labels@ == parsed[i].0
            && series[i].chunks@ == parsed[i].1
}

/// Reads the series section, which lies from byte `start` to byte `end` of
/// the file and of which `input` holds the bytes from `start` on. Returns
/// the bytes behind the last series and its padding together with the
/// series.
pub fn read_series(start: usize, end: usize, input: &[u8]) -> (r: Result<
    (&[u8], Vec<SerieTmp>),
    ParseError,
>)
    ensures
        match series_parse(input@, start as nat, end as nat) {
            Ok((parsed, n)) => r matches Ok((rest, series)) && series_hold(series@, parsed) && n
                <= input@.len() && rest@ == input@.skip(n as int),
            Err(e) => r matches Err(err) && err == e,
        },
{
    let len: usize = input.len();
    let initial_padding: usize = (16 - (start % 16)) % 16;
    if len < initial_padding {
        return Err(ParseError::Truncated { needed: None });
    }
    if end < start {
        return Err(ParseError::Section);
    }
    let limit: usize = end - start;
    let mut series: Vec<SerieTmp> = Vec::new();
    let mut pos: usize = initial_padding;
    let ghost all = series_parse(input@, start as nat, end as nat);
    let ghost mut found: Seq<(Seq<SerieLabel>, Seq<SerieChunk>)> = Seq::empty();
    proof {
        match all {
            Ok((others, at)) => {
                assert(found + others =~= others);
            },
            Err(e) => {},
        }
    }
    while pos < limit
        invariant
            len == input@.len(),
            pos <= len,
            all == series_parse(input@, start as nat, end as nat),
            series_hold(series@, found),
            match series_from_parse(input@, pos as nat, limit as nat) {
                Ok((others, at)) => all == Ok::<
                    (Seq<(Seq<SerieLabel>, Seq<SerieChunk>)>, nat),
                    ParseError,
                >((found + others, at)),
                Err(e) => all == Err::<(Seq<(Seq<SerieLabel>, Seq<SerieChunk>)>, nat), ParseError>(
                    e,
                ),
            },
        decreases len - pos,
    {
        let (rest, serie) = match read_serie(slice_subrange(input, pos, len)) {
            Ok(item) => item,
            Err(e) => {
                return Err(e);
            },
        };
        let consumed: usize = len - pos - rest.len();
        let padding: usize = (16 - (consumed % 16)) % 16;
        if rest.len() < padding {
            return Err(ParseError::Truncated { needed: None });
        }
        let ghost item = (serie.labels@, serie.chunks@);
        let ghost before = found;
        let ghost held = series@;
        series.push(serie);
        proof {
            found = found.push(item);
            assert forall|i: int| 0 <= i < found.len() implies (#[trigger] series@[i]).labels@
                == found[i].0 && series@[i].chunks@ == found[i].1 by {
                if i < before.len() {
                    assert(series@[i] == held[i]);
                }
            }
            match series_from_parse(input@, (pos + consumed + padding) as nat, limit as nat) {
                Ok((others, at)) => {
                    assert(before + (seq![item] + others) =~= found + others);
                },
                Err(e) => {},
            }
        }
        pos = pos + consumed + padding;
    }
    proof {
        assert(found + Seq::<(Seq<SerieLabel>, Seq<SerieChunk>)>::empty() =~= found);
    }
    Ok((slice_subrange(input, pos, len), series))
}

} // verus!

use vstd::prelude::*;
use crate::avro::{avro_tag_decode, parse_tag_list, BundleTag};
use crate::digest::{sha256_digest, sha256_of};
use crate::errors::{BundleStreamError, DecodeErrorKind};
use crate::reader::{le_val, lemma_le_val_bound, pow256, ByteReader};

verus! {

/// The mathematical content of one decoded record.
#[verifier::ext_equal]
pub ghost struct ItemView {
    pub signature_name: Seq<char>,
    pub signature: Seq<u8>,
    pub bundle_id: Seq<u8>,
    pub owner_public_key: Seq<u8>,
    pub target: Option<Seq<u8>>,
    pub anchor: Option<Seq<u8>>,
    pub tags: Seq<(Seq<char>, Seq<char>)>,
    pub payload: Seq<u8>,
}

/// One signed record extracted from a bundle.
#[derive(Debug, PartialEq)]
pub struct DataItem {
    pub signature_name: String,
    pub signature: Vec<u8>,
    pub bundle_id: Vec<u8>,
    pub owner_public_key: Vec<u8>,
    pub target: Option<Vec<u8>>,
    pub anchor: Option<Vec<u8>>,
    pub tags: Vec<BundleTag>,
    pub data: Vec<u8>,
}

/// The field bytes of an optional field, where present.
pub open spec fn opt_bytes_view(o: Option<Vec<u8>>) -> Option<Seq<u8>> {
    match o {
        Some(v) => Some(v@),
        None => None,
    }
}

impl View for DataItem {
    type V = ItemView;

    open spec fn view(&self) -> ItemView {
        ItemView {
            signature_name: self.signature_name@,
            signature: self.signature@,
            bundle_id: self.bundle_id@,
            owner_public_key: self.owner_public_key@,
            target: opt_bytes_view(self.target),
            anchor: opt_bytes_view(self.anchor),
            tags: self.tags@.map_values(|t: BundleTag| t@),
            payload: self.data@,
        }
    }
}

/// Whether a two-byte signature-variant tag is one of the supported schemes.
pub open spec fn variant_supported(v: nat) -> bool {
    1 <= v <= 4
}

/// The fixed signature length of a supported variant.
pub open spec fn spec_sig_len(v: nat) -> nat {
    if v == 1 {
        512
    } else if v == 2 {
        64
    } else if v == 3 {
        65
    } else {
        64
    }
}

/// The fixed public-key length of a supported variant.
pub open spec fn spec_key_len(v: nat) -> nat {
    if v == 1 {
        512
    } else if v == 2 {
        32
    } else if v == 3 {
        65
    } else {
        32
    }
}

/// The name of a supported variant's signature scheme.
pub open spec fn spec_sig_name(v: nat) -> Seq<char> {
    if v == 1 {
        "arweave"@
    } else if v == 2 {
        "ed25519"@
    } else if v == 3 {
        "ethereum"@
    } else {
        "solana"@
    }
}

/// Decode an optional 32-byte field: a presence flag that must be 0 or 1,
/// then the field bytes when present. Yields the field and the rest.
pub open spec fn spec_opt_field(s: Seq<u8>) -> Result<
    (Option<Seq<u8>>, Seq<u8>),
    DecodeErrorKind,
> {
    if s.len() < 1 {
        Err(DecodeErrorKind::TruncatedInput)
    } else if s[0] == 0 {
        Ok((None, s.skip(1)))
    } else if s[0] == 1 {
        if s.len() < 33 {
            Err(DecodeErrorKind::TruncatedInput)
        } else {
            Ok((Some(s.skip(1).take(32)), s.skip(33)))
        }
    } else {
        Err(DecodeErrorKind::MalformedInput)
    }
}

/// Decode an item's fields up to and including the anchor: the variant tag,
/// the signature and owner public key of the variant's fixed lengths, and the
/// two optional fields. Yields them and the rest of the item's bytes.
pub open spec fn spec_item_prefix(s: Seq<u8>) -> Result<
    (u16, Seq<u8>, Seq<u8>, Option<Seq<u8>>, Option<Seq<u8>>, Seq<u8>),
    DecodeErrorKind,
> {
    if s.len() < 2 {
        Err(DecodeErrorKind::TruncatedInput)
    } else {
        let v = le_val(s.take(2));
        if !variant_supported(v) {
            Err(DecodeErrorKind::UnsupportedSignatureVariant(v as u16))
        } else {
            let sl = spec_sig_len(v);
            let kl = spec_key_len(v);
            let r1 = s.skip(2);
            if r1.len() < sl + kl {
                Err(DecodeErrorKind::TruncatedInput)
            } else {
                let sig = r1.take(sl as int);
                let key = r1.skip(sl as int).take(kl as int);
                let r2 = r1.skip((sl + kl) as int);
                match spec_opt_field(r2) {
                    Err(k) => Err(k),
                    Ok((target, r3)) => match spec_opt_field(r3) {
                        Err(k) => Err(k),
                        Ok((anchor, r4)) => Ok((v as u16, sig, key, target, anchor, r4)),
                    },
                }
            }
        }
    }
}

/// The declared tag count of an item whose header reaches that field.
pub open spec fn spec_declared_tag_count(s: Seq<u8>) -> Option<nat> {
    match spec_item_prefix(s) {
        Ok((v, sig, key, target, anchor, rest)) => if rest.len() >= 8 {
            Some(le_val(rest.take(8)))
        } else {
            None
        },
        Err(_) => None,
    }
}

/// Decode one whole item from exactly the bytes its table row declared:
/// the prefix fields, the declared tag count and tag-blob length, the tag
/// blob handed to the external tag codec, and every remaining byte as the
/// payload. A tag list whose length differs from the declared count is
/// malformed.
pub open spec fn spec_decode_item(s: Seq<u8>) -> Result<ItemView, DecodeErrorKind> {
    match spec_item_prefix(s) {
        Err(k) => Err(k),
        Ok((v, sig, key, target, anchor, rest)) => {
            if rest.len() < 16 {
                Err(DecodeErrorKind::TruncatedInput)
            } else {
                let tag_count = le_val(rest.take(8));
                let blob_len = le_val(rest.skip(8).take(8));
                let body = rest.skip(16);
                if body.len() < blob_len {
                    Err(DecodeErrorKind::TruncatedInput)
                } else {
                    let blob = body.take(blob_len as int);
                    let payload = body.skip(blob_len as int);
                    let tags_decoded = if blob_len == 0 {
                        Some(Seq::<(Seq<char>, Seq<char>)>::empty())
                    } else {
                        avro_tag_decode(blob)
                    };
                    match tags_decoded {
                        None => Err(DecodeErrorKind::SchemaDecodeError),
                        Some(tags) => if tags.len() != tag_count {
                            Err(DecodeErrorKind::MalformedInput)
                        } else {
                            Ok(
                                ItemView {
                                    signature_name: spec_sig_name(v as nat),
                                    signature: sig,
                                    bundle_id: sha256_of(sig),
                                    owner_public_key: key,
                                    target,
                                    anchor,
                                    tags,
                                    payload,
                                },
                            )
                        },
                    }
                }
            }
        },
    }
}

/// Read an optional 32-byte field as `spec_opt_field` describes.
fn read_optional_field(reader: &mut ByteReader) -> (r: Result<Option<Vec<u8>>, DecodeErrorKind>)
    requires
        old(reader).wf(),
    ensures
        final(reader).wf(),
        match r {
            Ok(opt) => spec_opt_field(old(reader).remaining()) == Ok::<
                (Option<Seq<u8>>, Seq<u8>),
                DecodeErrorKind,
            >((opt_bytes_view(opt), final(reader).remaining())),
            Err(e) => spec_opt_field(old(reader).remaining()) == Err::<
                (Option<Seq<u8>>, Seq<u8>),
                DecodeErrorKind,
            >(e),
        },
{
    let flag = match reader.read_u8() {
        Ok(b) => b,
        Err(e) => {
            return Err(e);
        },
    };
    if flag == 0 {
        Ok(None)
    } else if flag == 1 {
        match reader.read_exact(32) {
            Ok(bytes) => {
                proof {
                    assert(reader.remaining() =~= old(reader).remaining().skip(33));
                }
                Ok(Some(bytes))
            },
            Err(e) => Err(e),
        }
    } else {
        Err(DecodeErrorKind::MalformedInput)
    }
}

/// Decode exactly one signed record from a reader bounded to the record's
/// declared byte length, consuming the reader whole on success.
pub fn read_data_item(reader: &mut ByteReader) -> (r: Result<DataItem, DecodeErrorKind>)
    requires
        old(reader).wf(),
    ensures
        final(reader).wf(),
        match r {
            Ok(d) => spec_decode_item(old(reader).remaining()) == Ok::<
                ItemView,
                DecodeErrorKind,
            >(d@) && final(reader).remaining() == Seq::<u8>::empty(),
            Err(e) => spec_decode_item(old(reader).remaining()) == Err::<
                ItemView,
                DecodeErrorKind,
            >(e),
        },
{
    let ghost s0 = old(reader).remaining();
    let variant_val = match reader.read_le_uint(2) {
        Ok(v) => v,
        Err(e) => {
            return Err(e);
        },
    };
    proof {
        lemma_le_val_bound(s0.take(2));
        reveal_with_fuel(pow256, 3);
        assert(pow256(2) == 65536);
    }
    let variant = variant_val as u16;
    let (sig_len, key_len): (usize, usize) = match variant {
        1 => (512, 512),
        2 => (64, 32),
        3 => (65, 65),
        4 => (64, 32),
        _ => {
            return Err(DecodeErrorKind::UnsupportedSignatureVariant(variant));
        },
    };
    let ghost r1 = s0.skip(2);
    let signature = match reader.read_exact(sig_len) {
        Ok(b) => b,
        Err(e) => {
            return Err(e);
        },
    };
    let bundle_id = sha256_digest(&signature);
    let owner_public_key = match reader.read_exact(key_len) {
        Ok(b) => b,
        Err(e) => {
            return Err(e);
        },
    };
    proof {
        assert(r1.skip(sig_len as int).skip(key_len as int) =~= r1.skip(sig_len + key_len));
    }
    let target = match read_optional_field(reader) {
        Ok(t) => t,
        Err(e) => {
            return Err(e);
        },
    };
    let anchor = match read_optional_field(reader) {
        Ok(a) => a,
        Err(e) => {
            return Err(e);
        },
    };
    proof {
        assert(spec_item_prefix(s0) == Ok::<
            (u16, Seq<u8>, Seq<u8>, Option<Seq<u8>>, Option<Seq<u8>>, Seq<u8>),
            DecodeErrorKind,
        >((variant, signature@, owner_public_key@, opt_bytes_view(target), opt_bytes_view(anchor),
        reader.remaining())));
    }
    let ghost rest = reader.remaining();
    let tag_count = match reader.read_le_uint(8) {
        Ok(c) => c,
        Err(e) => {
            return Err(e);
        },
    };
    let tags_size = match reader.read_le_uint(8) {
        Ok(c) => c,
        Err(e) => {
            return Err(e);
        },
    };
    proof {
        assert(rest.skip(8).skip(8) =~= rest.skip(16));
    }
    let remaining = reader.remaining_len();
    if (remaining as u128) < tags_size {
        return Err(DecodeErrorKind::TruncatedInput);
    }
    let tags: Vec<BundleTag> = if tags_size > 0 {
        let blob = match reader.read_exact(tags_size as usize) {
            Ok(b) => b,
            Err(e) => {
                return Err(e);
            },
        };
        match parse_tag_list(&blob) {
            Ok(t) => t,
            Err(e) => {
                return Err(e);
            },
        }
    } else {
        Vec::new()
    };
    if (tags.len() as u128) != tag_count {
        return Err(DecodeErrorKind::MalformedInput);
    }
    let data = reader.read_to_end();
    let signature_name = match variant {
        1 => "arweave",
        2 => "ed25519",
        3 => "ethereum",
        _ => "solana",
    };
    let item = DataItem {
        signature_name: signature_name.to_owned(),
        signature,
        bundle_id,
        owner_public_key,
        target,
        anchor,
        tags,
        data,
    };
    proof {
        if tags_size == 0 {
            assert(item.tags@.map_values(|t: BundleTag| t@) =~= Seq::<
                (Seq<char>, Seq<char>),
            >::empty());
        }
        assert(spec_decode_item(s0) matches Ok(m) && m =~= item@);
    }
    Ok(item)
}

/// Read a 32-byte counter whose effective range is 128 bits: the low half is
/// the value, a nonzero high half overflows the supported range.
pub open spec fn spec_read_u256(s: Seq<u8>) -> Result<(u128, Seq<u8>), DecodeErrorKind> {
    if s.len() < 32 {
        Err(DecodeErrorKind::TruncatedInput)
    } else if le_val(s.skip(16).take(16)) != 0 {
        Err(DecodeErrorKind::CountOverflow)
    } else {
        Ok((le_val(s.take(16)) as u128, s.skip(32)))
    }
}

/// Decode the index table: `n` rows of a declared length and a 32-byte entry
/// identifier each. Yields the rows in order and the rest of the bundle.
pub open spec fn spec_table(s: Seq<u8>, n: nat) -> Result<
    (Seq<(u128, Seq<u8>)>, Seq<u8>),
    DecodeErrorKind,
>
    decreases n,
{
    if n == 0 {
        Ok((Seq::empty(), s))
    } else {
        match spec_read_u256(s) {
            Err(k) => Err(k),
            Ok((size, r1)) => {
                if r1.len() < 32 {
                    Err(DecodeErrorKind::TruncatedInput)
                } else {
                    let id = r1.take(32);
                    let r2 = r1.skip(32);
                    match spec_table(r2, (n - 1) as nat) {
                        Err(k) => Err(k),
                        Ok((rows, r3)) => Ok((seq![(size, id)] + rows, r3)),
                    }
                }
            },
        }
    }
}

/// Decode the bundle header: the total item count, then that many table rows.
pub open spec fn spec_header(s: Seq<u8>) -> Result<
    (Seq<(u128, Seq<u8>)>, Seq<u8>),
    DecodeErrorKind,
> {
    match spec_read_u256(s) {
        Err(k) => Err(k),
        Ok((n, r)) => spec_table(r, n as nat),
    }
}

/// Every result the item sequence of a bundle yields from row `i` on, when
/// the bytes after the already-decoded rows are `s`: each row's item decoded
/// from exactly its declared length, stopping after the first failure.
pub open spec fn spec_rows(table: Seq<(u128, Seq<u8>)>, s: Seq<u8>, i: int) -> Seq<
    Result<ItemView, BundleStreamError>,
>
    decreases table.len() - i,
{
    if i < 0 || i >= table.len() {
        seq![]
    } else {
        let size = table[i].0;
        if s.len() < size {
            seq![
                Err(
                    BundleStreamError::Row {
                        index: i as usize,
                        declared_length: size,
                        kind: DecodeErrorKind::TruncatedInput,
                    },
                ),
            ]
        } else {
            match spec_decode_item(s.take(size as int)) {
                Err(k) => seq![
                    Err(
                        BundleStreamError::Row {
                            index: i as usize,
                            declared_length: size,
                            kind: k,
                        },
                    ),
                ],
                Ok(m) => seq![Ok(m)] + spec_rows(table, s.skip(size as int), i + 1),
            }
        }
    }
}

/// Every result iterating a bundle's item sequence yields, in order: one
/// header failure, or the rows as `spec_rows` describes.
pub open spec fn spec_bundle_outputs(s: Seq<u8>) -> Seq<Result<ItemView, BundleStreamError>> {
    match spec_header(s) {
        Err(k) => seq![Err(BundleStreamError::Header { kind: k })],
        Ok((table, rest)) => spec_rows(table, rest, 0),
    }
}

/// Read one 32-byte counter as `spec_read_u256` describes.
fn read_u256_as_u128(reader: &mut ByteReader) -> (r: Result<u128, DecodeErrorKind>)
    requires
        old(reader).wf(),
    ensures
        final(reader).wf(),
        match r {
            Ok(n) => spec_read_u256(old(reader).remaining()) == Ok::<
                (u128, Seq<u8>),
                DecodeErrorKind,
            >((n, final(reader).remaining())),
            Err(e) => spec_read_u256(old(reader).remaining()) == Err::<
                (u128, Seq<u8>),
                DecodeErrorKind,
            >(e),
        },
{
    let ghost s0 = old(reader).remaining();
    let low = match reader.read_le_uint(16) {
        Ok(v) => v,
        Err(e) => {
            return Err(e);
        },
    };
    let high = match reader.read_le_uint(16) {
        Ok(v) => v,
        Err(e) => {
            return Err(e);
        },
    };
    proof {
        assert(s0.skip(16).skip(16) =~= s0.skip(32));
    }
    if high != 0 {
        return Err(DecodeErrorKind::CountOverflow);
    }
    Ok(low)
}

/// Read the whole index table as `spec_table` describes; the rows come back
/// as (declared length, entry identifier) pairs.
fn read_data_item_and_entry_id_table(reader: &mut ByteReader, total_items: u128) -> (r: Result<
    Vec<(u128, Vec<u8>)>,
    DecodeErrorKind,
>)
    requires
        old(reader).wf(),
    ensures
        final(reader).wf(),
        match r {
            Ok(rows) => spec_table(old(reader).remaining(), total_items as nat) == Ok::<
                (Seq<(u128, Seq<u8>)>, Seq<u8>),
                DecodeErrorKind,
            >((rows@.map_values(|p: (u128, Vec<u8>)| (p.0, p.1@)), final(reader).remaining())),
            Err(e) => spec_table(old(reader).remaining(), total_items as nat) == Err::<
                (Seq<(u128, Seq<u8>)>, Seq<u8>),
                DecodeErrorKind,
            >(e),
        },
{
    let ghost s0 = old(reader).remaining();
    let mut rows: Vec<(u128, Vec<u8>)> = Vec::new();
    let mut i: u128 = 0;
    proof {
        assert(rows@.map_values(|p: (u128, Vec<u8>)| (p.0, p.1@)) =~= Seq::<
            (u128, Seq<u8>),
        >::empty());
        match spec_table(s0, total_items as nat) {
            Ok((tail, r)) => {
                assert(Seq::<(u128, Seq<u8>)>::empty() + tail =~= tail);
            },
            Err(_) => {},
        }
    }
    while i < total_items
        invariant
            reader.wf(),
            i <= total_items,
            rows@.len() == i,
            s0 == old(reader).remaining(),
            ({
                let done = rows@.map_values(|p: (u128, Vec<u8>)| (p.0, p.1@));
                match spec_table(reader.remaining(), (total_items - i) as nat) {
                    Ok((tail, r)) => spec_table(s0, total_items as nat) == Ok::<
                        (Seq<(u128, Seq<u8>)>, Seq<u8>),
                        DecodeErrorKind,
                    >((done + tail, r)),
                    Err(k) => spec_table(s0, total_items as nat) == Err::<
                        (Seq<(u128, Seq<u8>)>, Seq<u8>),
                        DecodeErrorKind,
                    >(k),
                }
            }),
        decreases total_items - i,
    {
        let ghost s_cur = reader.remaining();
        let ghost done_prev = rows@.map_values(|p: (u128, Vec<u8>)| (p.0, p.1@));
        let size = match read_u256_as_u128(reader) {
            Ok(v) => v,
            Err(e) => {
                return Err(e);
            },
        };
        let entry_id = match reader.read_exact(32) {
            Ok(b) => b,
            Err(e) => {
                return Err(e);
            },
        };
        rows.push((size, entry_id));
        i = i + 1;
        proof {
            let done = rows@.map_values(|p: (u128, Vec<u8>)| (p.0, p.1@));
            assert(done =~= done_prev + seq![(size, entry_id@)]);
            match spec_table(reader.remaining(), (total_items - i) as nat) {
                Ok((tail, r)) => {
                    assert(done_prev + (seq![(size, entry_id@)] + tail) =~= done + tail);
                },
                Err(_) => {},
            }
        }
    }
    proof {
        let done = rows@.map_values(|p: (u128, Vec<u8>)| (p.0, p.1@));
        assert(done + Seq::<(u128, Seq<u8>)>::empty() =~= done);
    }
    Ok(rows)
}

/// The lazy, forward-only sequence of a bundle's decoded items: the header
/// and table are read on the first pull, then each pull decodes one table
/// row from exactly its declared length, in table order, until the rows are
/// exhausted or one of them fails.
pub struct BundleItemStream {
    reader: ByteReader,
    started: bool,
    done: bool,
    table: Vec<(u128, Vec<u8>)>,
    next_row: usize,
    source: Ghost<Seq<u8>>,
    emitted: Ghost<nat>,
}

impl BundleItemStream {
    /// The bundle bytes the stream was started on.
    pub closed spec fn source(self) -> Seq<u8> {
        self.source@
    }

    /// How many results were yielded so far.
    pub closed spec fn emitted(self) -> nat {
        self.emitted@
    }

    /// The stream's state always matches what `spec_bundle_outputs` still
    /// owes after the results already yielded.
    pub closed spec fn wf(self) -> bool {
        &&& self.reader.wf()
        &&& if !self.started {
            &&& !self.done
            &&& self.reader.remaining() == self.source@
            &&& self.emitted@ == 0
        } else if !self.done {
            &&& self.next_row <= self.table@.len()
            &&& self.emitted@ == self.next_row
            &&& self.emitted@ <= spec_bundle_outputs(self.source@).len()
            &&& spec_header(self.source@) matches Ok((t, _)) && t == self.table@.map_values(
                |p: (u128, Vec<u8>)| (p.0, p.1@),
            )
            &&& spec_bundle_outputs(self.source@).skip(self.emitted@ as int) == spec_rows(
                self.table@.map_values(|p: (u128, Vec<u8>)| (p.0, p.1@)),
                self.reader.remaining(),
                self.next_row as int,
            )
        } else {
            self.emitted@ >= spec_bundle_outputs(self.source@).len()
        }
    }

    /// Pull the next result, or `None` once the sequence is over.
    pub fn next_item(&mut self) -> (r: Option<Result<DataItem, BundleStreamError>>)
        requires
            old(self).wf(),
        ensures
            final(self).wf(),
            final(self).source() == old(self).source(),
            ({
                let outs = spec_bundle_outputs(old(self).source());
                if old(self).emitted() < outs.len() {
                    &&& final(self).emitted() == old(self).emitted() + 1
                    &&& match r {
                        Some(res) => match (res, outs[old(self).emitted() as int]) {
                            (Ok(d), Ok(m)) => d@ == m,
                            (Err(e), Err(me)) => e == me,
                            _ => false,
                        },
                        None => false,
                    }
                } else {
                    &&& final(self).emitted() == old(self).emitted()
                    &&& r is None
                }
            }),
    {
        if !self.started {
            self.started = true;
            let total_items = match read_u256_as_u128(&mut self.reader) {
                Ok(v) => v,
                Err(e) => {
                    self.done = true;
                    self.emitted = Ghost(1);
                    return Some(Err(BundleStreamError::Header { kind: e }));
                },
            };
            let table = match read_data_item_and_entry_id_table(&mut self.reader, total_items) {
                Ok(t) => t,
                Err(e) => {
                    self.done = true;
                    self.emitted = Ghost(1);
                    return Some(Err(BundleStreamError::Header { kind: e }));
                },
            };
            self.table = table;
            self.next_row = 0;
            proof {
                let tablev0 = self.table@.map_values(|p: (u128, Vec<u8>)| (p.0, p.1@));
                assert(spec_bundle_outputs(self.source@) == spec_rows(
                    tablev0,
                    self.reader.remaining(),
                    0,
                ));
                assert(spec_bundle_outputs(self.source@).skip(0) =~= spec_bundle_outputs(
                    self.source@,
                ));
            }
        }
        if self.done {
            return None;
        }
        let ghost outs = spec_bundle_outputs(self.source@);
        let ghost tablev = self.table@.map_values(|p: (u128, Vec<u8>)| (p.0, p.1@));
        if self.next_row >= self.table.len() {
            self.done = true;
            return None;
        }
        let row = self.next_row;
        let size = self.table[row].0;
        proof {
            assert(outs.skip(self.emitted@ as int) == spec_rows(
                tablev,
                self.reader.remaining(),
                self.next_row as int,
            ));
            assert(tablev[row as int].0 == size);
        }
        let remaining = self.reader.remaining_len();
        if (remaining as u128) < size {
            self.done = true;
            self.emitted = Ghost(self.emitted@ + 1);
            proof {
                assert(spec_rows(tablev, self.reader.remaining(), row as int) =~= seq![
                    Err::<ItemView, BundleStreamError>(
                        BundleStreamError::Row {
                            index: row,
                            declared_length: size,
                            kind: DecodeErrorKind::TruncatedInput,
                        },
                    ),
                ]);
                assert(outs[row as int] == outs.skip(row as int)[0]);
                assert(outs.len() == row + 1);
            }
            return Some(
                Err(
                    BundleStreamError::Row {
                        index: row,
                        declared_length: size,
                        kind: DecodeErrorKind::TruncatedInput,
                    },
                ),
            );
        }
        let ghost s_cur = self.reader.remaining();
        let item_bytes = match self.reader.read_exact(size as usize) {
            Ok(b) => b,
            Err(_) => {
                proof {
                    assert(false);
                }
                self.done = true;
                return None;
            },
        };
        let mut item_reader = ByteReader::new(item_bytes);
        let result = read_data_item(&mut item_reader);
        match result {
            Ok(d) => {
                self.next_row = row + 1;
                self.emitted = Ghost(self.emitted@ + 1);
                proof {
                    let tail = spec_rows(tablev, s_cur.skip(size as int), row + 1);
                    assert(spec_rows(tablev, s_cur, row as int) =~= seq![
                        Ok::<ItemView, BundleStreamError>(d@),
                    ] + tail);
                    assert(outs.skip(row as int) == spec_rows(tablev, s_cur, row as int));
                    assert(outs[row as int] == outs.skip(row as int)[0]);
                    assert((seq![Ok::<ItemView, BundleStreamError>(d@)] + tail)[0] == Ok::<
                        ItemView,
                        BundleStreamError,
                    >(d@));
                    assert(outs.skip((self.emitted@ - 1) as int).skip(1) =~= outs.skip(
                        self.emitted@ as int,
                    ));
                    assert((seq![Ok::<ItemView, BundleStreamError>(d@)] + tail).skip(1) =~= tail);
                }
                Some(Ok(d))
            },
            Err(k) => {
                self.done = true;
                self.emitted = Ghost(self.emitted@ + 1);
                proof {
                    assert(item_bytes@ == s_cur.take(size as int));
                    assert(spec_rows(tablev, s_cur, row as int) =~= seq![
                        Err::<ItemView, BundleStreamError>(
                            BundleStreamError::Row {
                                index: row,
                                declared_length: size,
                                kind: k,
                            },
                        ),
                    ]);
                    assert(outs[row as int] == outs.skip(row as int)[0]);
                    assert(outs.len() == row + 1);
                }
                Some(
                    Err(BundleStreamError::Row { index: row, declared_length: size, kind: k }),
                )
            },
        }
    }
}

/// The index table of a decodable header has exactly the declared number of rows.
pub proof fn lemma_table_len(s: Seq<u8>, n: nat)
    ensures
        spec_table(s, n) matches Ok((rows, _)) ==> rows.len() == n,
    decreases n,
{
    if n > 0 {
        match spec_read_u256(s) {
            Ok((size, r1)) => {
                if r1.len() >= 32 {
                    lemma_table_len(r1.skip(32), (n - 1) as nat);
                }
            },
            Err(_) => {},
        }
    }
}

proof fn lemma_rows_all_ok_count(table: Seq<(u128, Seq<u8>)>, s: Seq<u8>, i: int)
    requires
        0 <= i <= table.len(),
        forall|k: int|
            0 <= k < spec_rows(table, s, i).len() ==> #[trigger] spec_rows(table, s, i)[k] is Ok,
    ensures
        spec_rows(table, s, i).len() == table.len() - i,
        sum_sizes(table, i) <= s.len(),
    decreases table.len() - i,
{
    if i < table.len() {
        let size = table[i].0;
        if s.len() < size {
            assert(spec_rows(table, s, i)[0] is Err);
        } else {
            match spec_decode_item(s.take(size as int)) {
                Err(_) => {
                    assert(spec_rows(table, s, i)[0] is Err);
                },
                Ok(m) => {
                    let tail = spec_rows(table, s.skip(size as int), i + 1);
                    assert forall|k: int| 0 <= k < tail.len() implies #[trigger] tail[k] is Ok by {
                        assert(spec_rows(table, s, i)[k + 1] == tail[k]);
                    }
                    lemma_rows_all_ok_count(table, s.skip(size as int), i + 1);
                },
            }
        }
    }
}

/// The sum of the declared lengths of the table rows from `i` on.
pub open spec fn sum_sizes(table: Seq<(u128, Seq<u8>)>, i: int) -> int
    decreases table.len() - i,
{
    if i < 0 || i >= table.len() {
        0
    } else {
        table[i].0 + sum_sizes(table, i + 1)
    }
}

/// A bundle whose item sequence yields no failure yields exactly as many
/// results as the header's declared total item count, and the declared row
/// lengths fit, in order and without overlap, within the item-section bytes
/// that follow the table.
pub proof fn lemma_yield_count_matches_declared(s: Seq<u8>)
    requires
        spec_header(s) is Ok,
        forall|k: int|
            0 <= k < spec_bundle_outputs(s).len() ==> #[trigger] spec_bundle_outputs(s)[k] is Ok,
    ensures
        spec_read_u256(s) matches Ok((n, r)) && {
            &&& spec_header(s).unwrap().0.len() == n
            &&& spec_bundle_outputs(s).len() == n
            &&& sum_sizes(spec_header(s).unwrap().0, 0) <= spec_header(s).unwrap().1.len()
        },
{
    let (n, r) = spec_read_u256(s).unwrap();
    lemma_table_len(r, n as nat);
    let (table, rest) = spec_header(s).unwrap();
    assert(spec_bundle_outputs(s) == spec_rows(table, rest, 0));
    assert forall|k: int| 0 <= k < spec_rows(table, rest, 0).len() implies #[trigger] spec_rows(
        table,
        rest,
        0,
    )[k] is Ok by {
        assert(spec_bundle_outputs(s)[k] is Ok);
    }
    lemma_rows_all_ok_count(table, rest, 0);
}

/// A decoded item's tag list always has exactly the length its header declared.
pub proof fn lemma_tag_count_enforced(s: Seq<u8>)
    ensures
        spec_decode_item(s) matches Ok(m) ==> spec_declared_tag_count(s) == Some(m.tags.len()),
{
}

/// An item whose tag blob decodes to a list of a length other than the
/// declared tag count fails to decode as malformed input.
pub proof fn lemma_tag_count_mismatch_rejected(s: Seq<u8>)
    ensures
        ({
            match spec_item_prefix(s) {
                Ok((v, sig, key, target, anchor, rest)) => rest.len() >= 16 ==> ({
                    let tag_count = le_val(rest.take(8));
                    let blob_len = le_val(rest.skip(8).take(8));
                    let body = rest.skip(16);
                    body.len() >= blob_len ==> ({
                        let tags_decoded = if blob_len == 0 {
                            Some(Seq::<(Seq<char>, Seq<char>)>::empty())
                        } else {
                            avro_tag_decode(body.take(blob_len as int))
                        };
                        tags_decoded matches Some(tags) && tags.len() != tag_count
                            ==> spec_decode_item(s) == Err::<ItemView, DecodeErrorKind>(
                            DecodeErrorKind::MalformedInput,
                        )
                    })
                }),
                Err(_) => true,
            }
        }),
{
}

/// A decoded item's signature and owner public key have exactly the fixed
/// lengths of its variant's row in the variant table, and its scheme name is
/// the variant's; a supported variant is the first condition of success, and
/// an unrecognized variant tag fails as exactly that.
pub proof fn lemma_variant_field_lengths(s: Seq<u8>)
    ensures
        spec_decode_item(s) matches Ok(m) ==> ({
            let v = le_val(s.take(2));
            &&& variant_supported(v)
            &&& m.signature.len() == spec_sig_len(v)
            &&& m.owner_public_key.len() == spec_key_len(v)
            &&& m.signature_name == spec_sig_name(v)
        }),
        (s.len() >= 2 && !variant_supported(le_val(s.take(2)))) ==> spec_decode_item(s) == Err::<
            ItemView,
            DecodeErrorKind,
        >(DecodeErrorKind::UnsupportedSignatureVariant(le_val(s.take(2)) as u16)),
{
}

/// A presence flag outside {0, 1} is malformed input, whatever follows it.
pub proof fn lemma_presence_flag_rejected(s: Seq<u8>)
    ensures
        s.len() >= 1 && s[0] != 0 && s[0] != 1 ==> spec_opt_field(s) == Err::<
            (Option<Seq<u8>>, Seq<u8>),
            DecodeErrorKind,
        >(DecodeErrorKind::MalformedInput),
{
}

/// An item whose target presence flag is outside {0, 1} fails to decode as
/// malformed input, for every otherwise well-formed input.
pub proof fn lemma_target_flag_rejected(s: Seq<u8>)
    ensures
        ({
            let v = le_val(s.take(2));
            let off = 2 + spec_sig_len(v) + spec_key_len(v);
            (s.len() > off && variant_supported(v) && s[off as int] != 0 && s[off as int] != 1)
                ==> spec_decode_item(s) == Err::<ItemView, DecodeErrorKind>(
                DecodeErrorKind::MalformedInput,
            )
        }),
{
    let v = le_val(s.take(2));
    let off = 2 + spec_sig_len(v) + spec_key_len(v);
    if s.len() > off && variant_supported(v) && s[off as int] != 0 && s[off as int] != 1 {
        let r1 = s.skip(2);
        let r2 = r1.skip((spec_sig_len(v) + spec_key_len(v)) as int);
        assert(r2[0] == s[off as int]);
        assert(spec_opt_field(r2) == Err::<(Option<Seq<u8>>, Seq<u8>), DecodeErrorKind>(
            DecodeErrorKind::MalformedInput,
        ));
    }
}

/// Open a bundle's item sequence over a reader positioned at its start.
pub fn ans104_bundle_data_item_stream(reader: ByteReader) -> (s: BundleItemStream)
    requires
        reader.wf(),
    ensures
        s.wf(),
        s.source() == reader.remaining(),
        s.emitted() == 0,
{
    BundleItemStream {
        source: Ghost(reader.remaining()),
        reader,
        started: false,
        done: false,
        table: Vec::new(),
        next_row: 0,
        emitted: Ghost(0),
    }
}

} // verus!

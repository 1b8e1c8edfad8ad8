//! What holds of the operations on a volume taken together.

use vstd::prelude::*;

use crate::blockmap;
use crate::dc42;
use crate::dc42::Dc42View;
use crate::dir;
use crate::dir::EntryView;
use crate::error::Fault;
use crate::mdb;
use crate::mdb::MdbView;
use crate::model;
use crate::model::{ContainerView, VolumeView};
use crate::util;
use crate::volume::{Fork, ImageFormat};

verus! {

// ------------------------------------------------------------ opening and saving

/// Writing back the tables of a volume that was just read changes nothing.
#[verifier::rlimit(30)]
proof fn lemma_tables_unchanged(data: Seq<u8>, container: ContainerView)
    requires
        model::parts_outcome(data, container) is Ok,
    ensures
        model::tables_written(model::parts_outcome(data, container)->Ok_0) == data,
{
    let v = model::parts_outcome(data, container)->Ok_0;
    let m = v.mdb;
    let rest = data.skip(1024);
    mdb::lemma_write_inverts_parse(rest);
    mdb::lemma_bytes_of(m);
    let with_mdb = util::splice(data, 1024, mdb::bytes_of(m));
    assert(with_mdb =~= data) by {
        assert forall|i: int| 0 <= i < data.len() implies with_mdb[i] == data[i] by {
            if i >= 1024 {
                assert(util::splice(rest, 0, mdb::bytes_of(m))[i - 1024] == rest[i - 1024]);
            }
        }
    }
    let n = m.nm_al_blks as nat;
    let raw = data.subrange(1088, model::dir_start(m));
    let owned = data.subrange(1088, 1088 + blockmap::packed_size(n) as int);
    assert(v.map.len() == n);
    lemma_unpacked_prefix(owned, raw, n);
    blockmap::lemma_pack_inverts_unpack(owned, n);
    assert(model::tables_written(v) =~= data);
}

/// Opening an image in a given container and saving it again reproduces it byte
/// for byte.
pub proof fn lemma_forced_open_save(bytes: Seq<u8>, format: ImageFormat)
    requires
        model::forced_outcome(bytes, format) is Ok,
    ensures
        model::image(model::forced_outcome(bytes, format)->Ok_0) == bytes,
        model::format_of(model::forced_outcome(bytes, format)->Ok_0.container) == format,
{
    match format {
        ImageFormat::Raw => lemma_tables_unchanged(bytes, ContainerView::Raw),
        ImageFormat::DiskCopy42 => {
            let c = dc42::parse_outcome(bytes)->Ok_0;
            let v = model::forced_outcome(bytes, format)->Ok_0;
            lemma_tables_unchanged(c.data, model::container_of(c));
            dc42::lemma_wrap_inverts_parse(bytes);
            assert(model::serialized(v) == c.data);
            assert(Dc42View { data: model::serialized(v), ..c } == c);
        },
    }
}

/// Opening an image, whatever its container, and saving it again without
/// changing anything reproduces it byte for byte.
pub proof fn lemma_open_save(bytes: Seq<u8>)
    requires
        model::open_outcome(bytes) is Ok,
    ensures
        model::image(model::open_outcome(bytes)->Ok_0) == bytes,
{
    lemma_forced_open_save(bytes, model::detected(bytes)->Ok_0);
}

/// An image that can be opened gives the same volume when it is opened as what
/// it was found to be.
pub proof fn lemma_open_forced(bytes: Seq<u8>)
    requires
        model::open_outcome(bytes) is Ok,
    ensures
        model::forced_outcome(
            bytes,
            model::format_of(model::open_outcome(bytes)->Ok_0.container),
        ) == model::open_outcome(bytes),
{
    lemma_forced_open_save(bytes, model::detected(bytes)->Ok_0);
}

/// A volume in a DiskCopy 4.2 container is not taken for a bare image, even
/// where that is asked for, unless its boot blocks happen to hold the signature
/// word where a bare image has it.
#[verifier::rlimit(30)]
pub proof fn lemma_container_not_raw(v: VolumeView)
    requires
        v.wf(),
        v.container is Dc42,
        util::be16(v.data, 940) != mdb::MFS_SIGNATURE,
    ensures
        model::forced_outcome(model::image(v), ImageFormat::Raw) is Err,
        util::be16(v.data, 940) != mdb::HFS_SIGNATURE ==> model::forced_outcome(
            model::image(v),
            ImageFormat::Raw,
        ) == Err::<VolumeView, Fault>(Fault::BadSignature { found: util::be16(v.data, 940) }),
{
    let b = model::image(v);
    let d = model::serialized(v);
    lemma_serialized(v);
    match v.container {
        ContainerView::Raw => {},
        ContainerView::Dc42 { name, padding, tags, disk_format, format_byte } => {
            let c = Dc42View { name, padding, data: d, tags, disk_format, format_byte };
            dc42::lemma_data_in_container(c);
            let rest = b.skip(1024);
            assert(rest[0] == b[84 + 940int] && rest[1] == b[84 + 941int]);
            assert(d[940] == v.data[940] && d[941] == v.data[941]);
            assert(util::be16(rest, 0) == util::be16(v.data, 940));
        },
    }
}

/// An HFS volume is reported as unsupported, bare or in a container, whether the
/// container was named or not.
pub proof fn lemma_hfs_unsupported(data: Seq<u8>, container: ContainerView)
    requires
        data.len() >= 1088,
        util::be16(data, 1024) == mdb::HFS_SIGNATURE,
    ensures
        model::parts_outcome(data, container) == Err::<VolumeView, Fault>(Fault::UnsupportedHfs),
        model::forced_outcome(data, ImageFormat::Raw) == Err::<VolumeView, Fault>(
            Fault::UnsupportedHfs,
        ),
        dc42::header_outcome(data) is Err ==> model::open_outcome(data) == Err::<
            VolumeView,
            Fault,
        >(Fault::UnsupportedHfs),
{
    assert(util::be16(data.skip(1024), 0) == util::be16(data, 1024));
}

/// What the tables of a saved volume are, and what they leave as it was.
#[verifier::rlimit(60)]
proof fn lemma_tables_written(v: VolumeView)
    requires
        v.wf(),
    ensures
        ({
            let d = model::tables_written(v);
            let size = blockmap::packed_size(v.map.len()) as int;
            &&& d.len() == v.data.len()
            &&& forall|i: int|
                0 <= i < d.len() && (i < 1024 || i >= 1088 + size) ==> #[trigger] d[i] == v.data[i]
            &&& forall|i: int|
                0 <= i < 64 ==> d[1024 + i] == #[trigger] mdb::bytes_of(v.mdb)[i]
            &&& mdb::bytes_of(v.mdb).len() == 64
            &&& blockmap::unpacked(d.subrange(1088, 1088 + size), v.map.len()) == v.map
        }),
{
    let m = v.mdb;
    let d = model::tables_written(v);
    let n = v.map.len();
    let size = blockmap::packed_size(n) as int;
    mdb::lemma_bytes_of(m);
    let with_mdb = util::splice(v.data, 1024, mdb::bytes_of(m));
    let owned = with_mdb.subrange(1088, 1088 + size);
    let packed = blockmap::packed(v.map, owned);
    blockmap::lemma_unpack_inverts_pack(v.map, owned);
    assert(d.subrange(1088, 1088 + size) =~= packed);
}

/// The entries of a packed map depend on its own bytes alone.
proof fn lemma_unpacked_prefix(a: Seq<u8>, b: Seq<u8>, n: nat)
    requires
        a.len() >= blockmap::packed_size(n),
        b.len() >= blockmap::packed_size(n),
        forall|i: int| 0 <= i < blockmap::packed_size(n) ==> #[trigger] a[i] == b[i],
    ensures
        blockmap::unpacked(a, n) == blockmap::unpacked(b, n),
{
    assert forall|i: int| 0 <= i < n implies blockmap::entry_at(a, i) == blockmap::entry_at(b, i) by {
        let o = (i / 2) * 3;
        assert(o + 1 < blockmap::packed_size(n));
        assert(i % 2 == 1 ==> o + 2 < blockmap::packed_size(n));
        assert(a[o] == b[o]);
        assert(a[o + 1] == b[o + 1]);
        assert(i % 2 == 1 ==> a[o + 2] == b[o + 2]);
    }
    assert(blockmap::unpacked(a, n) =~= blockmap::unpacked(b, n));
}

/// What the tables and the directory of a saved volume are.
#[verifier::rlimit(30)]
pub proof fn lemma_serialized(v: VolumeView)
    requires
        v.wf(),
    ensures
        ({
            let d = model::serialized(v);
            let n = v.map.len();
            &&& d.len() == v.data.len()
            &&& forall|i: int|
                0 <= i < d.len() && (i < 1024 || i >= model::dir_end(v.mdb)) ==> #[trigger] d[i]
                    == v.data[i]
            &&& mdb::parse_outcome(d.skip(1024)) == Ok::<MdbView, Fault>(v.mdb)
            &&& blockmap::unpack_outcome(d.subrange(1088, model::dir_start(v.mdb)), n) == Ok::<
                Seq<u16>,
                Fault,
            >(v.map)
            &&& v.dir_dirty ==> d.subrange(model::dir_start(v.mdb), model::dir_end(v.mdb))
                == dir::image(v.entries, v.mdb.dir_len as nat, 0, 0)
            &&& !v.dir_dirty ==> d.subrange(model::dir_start(v.mdb), model::dir_end(v.mdb))
                == v.data.subrange(model::dir_start(v.mdb), model::dir_end(v.mdb))
        }),
{
    let m = v.mdb;
    let t = model::tables_written(v);
    let d = model::serialized(v);
    let n = v.map.len();
    let size = blockmap::packed_size(n) as int;
    lemma_tables_written(v);
    dir::lemma_image_len(v.entries, m.dir_len as nat, 0, 0);
    assert forall|i: int| 0 <= i < model::dir_start(m) implies #[trigger] d[i] == t[i] by {}
    let rest = d.skip(1024);
    assert(rest =~= util::splice(rest, 0, mdb::bytes_of(m))) by {
        assert forall|i: int| 0 <= i < 64 implies rest[i] == #[trigger] mdb::bytes_of(m)[i] by {
            assert(d[1024 + i] == t[1024 + i]);
        }
    }
    mdb::lemma_parse_inverts_write(m, rest);
    let raw = d.subrange(1088, model::dir_start(m));
    let owned = t.subrange(1088, 1088 + size);
    assert forall|i: int| 0 <= i < size implies #[trigger] raw[i] == owned[i] by {
        assert(d[1088 + i] == t[1088 + i]);
    }
    lemma_unpacked_prefix(raw, owned, n);
    let region = d.subrange(model::dir_start(m), model::dir_end(m));
    if v.dir_dirty {
        assert(region =~= dir::image(v.entries, m.dir_len as nat, 0, 0));
    } else {
        assert(region =~= v.data.subrange(model::dir_start(m), model::dir_end(m)));
    }
}

/// A volume as it is read back from its own image.
pub open spec fn reread(v: VolumeView) -> VolumeView {
    VolumeView { data: model::serialized(v), dir_dirty: false, ..v }
}

/// Saving a volume and reading the image back gives the same volume.
pub proof fn lemma_save_open(v: VolumeView)
    requires
        v.wf(),
    ensures
        model::forced_outcome(model::image(v), model::format_of(v.container)) == Ok::<
            VolumeView,
            Fault,
        >(reread(v)),
        reread(v).wf(),
{
    let m = v.mdb;
    let d = model::serialized(v);
    lemma_serialized(v);
    let region = d.subrange(model::dir_start(m), model::dir_end(m));
    dir::lemma_parse_inverts_write(v.entries, m.dir_len as nat);
    assert(dir::parse_outcome(region) == Ok::<Seq<EntryView>, Fault>(v.entries));
    assert(model::parts_outcome(d, v.container) == Ok::<VolumeView, Fault>(reread(v)));
    match v.container {
        ContainerView::Raw => {},
        ContainerView::Dc42 { name, padding, tags, disk_format, format_byte } => {
            let c = Dc42View { name, padding, data: d, tags, disk_format, format_byte };
            dc42::lemma_parse_inverts_wrap(c);
            assert(model::container_of(c) == v.container);
        },
    }
}

/// A saved volume is found to be what it is without being told its container:
/// always in a DiskCopy 4.2 container, and as a bare image of whole sectors
/// unless that happens to look like a DiskCopy 4.2 container.
pub proof fn lemma_save_detected(v: VolumeView)
    requires
        v.wf(),
    ensures
        model::detected(model::image(v)) == Ok::<ImageFormat, Fault>(model::format_of(v.container))
            <==> (v.container is Dc42 || v.data.len() % 512 == 0 && dc42::header_outcome(
            model::image(v),
        ) is Err),
{
    lemma_serialized(v);
    match v.container {
        ContainerView::Raw => {
            let d = model::serialized(v);
            let rest = d.skip(1024);
            assert(util::be16(rest, 0) == mdb::MFS_SIGNATURE);
            assert(util::be16(d, 1024) == util::be16(rest, 0));
        },
        ContainerView::Dc42 { name, padding, tags, disk_format, format_byte } => {
            let c = Dc42View {
                name,
                padding,
                data: model::serialized(v),
                tags,
                disk_format,
                format_byte,
            };
            dc42::lemma_parse_inverts_wrap(c);
        },
    }
}

/// Saving a volume a second time gives the same image.
#[verifier::rlimit(30)]
pub proof fn lemma_save_twice(v: VolumeView)
    requires
        v.wf(),
    ensures
        ({
            let saved = VolumeView { data: model::serialized(v), ..v };
            &&& saved.wf()
            &&& model::serialized(saved) == model::serialized(v)
            &&& model::image(saved) == model::image(v)
        }),
{
    let saved = VolumeView { data: model::serialized(v), ..v };
    let d = saved.data;
    let m = v.mdb;
    lemma_serialized(v);
    mdb::lemma_bytes_of(m);
    dir::lemma_image_len(v.entries, m.dir_len as nat, 0, 0);
    let size = blockmap::packed_size(v.map.len()) as int;
    let with_mdb = util::splice(d, 1024, mdb::bytes_of(m));
    let rest = d.skip(1024);
    assert(with_mdb =~= d) by {
        mdb::lemma_write_inverts_parse(rest);
        let again = util::splice(rest, 0, mdb::bytes_of(m));
        assert(again == rest);
        assert forall|i: int| 0 <= i < d.len() implies with_mdb[i] == d[i] by {
            if i >= 1024 {
                assert(again[i - 1024] == rest[i - 1024]);
            }
        }
    }
    let owned = d.subrange(1088, 1088 + size);
    let raw = d.subrange(1088, model::dir_start(m));
    lemma_unpacked_prefix(owned, raw, v.map.len());
    blockmap::lemma_pack_inverts_unpack(owned, v.map.len());
    assert(model::tables_written(saved) =~= d);
    if v.dir_dirty {
        let region = d.subrange(model::dir_start(m), model::dir_end(m));
        assert(model::serialized(saved) =~= d) by {
            assert forall|i: int| 0 <= i < d.len() implies model::serialized(saved)[i] == d[i] by {
                if model::dir_start(m) <= i < model::dir_end(m) {
                    assert(region[i - model::dir_start(m)] == d[i]);
                }
            }
        }
    }
}

// ------------------------------------------------------------ the blocks of a fork

/// Whether the area of `n` allocation blocks lies inside the image.
pub open spec fn area_inside(data: Seq<u8>, m: MdbView, n: nat) -> bool {
    m.al_blk_siz > 0 && m.al_bl_st * 512 + n * m.al_blk_siz <= data.len()
}

/// Whether all of `blocks` are among the first `n`.
pub open spec fn blocks_among(blocks: Seq<u16>, n: nat) -> bool {
    forall|i: int| 0 <= i < blocks.len() ==> 2 <= #[trigger] blocks[i] < 2 + n
}

/// Where a block lies.
proof fn lemma_block_range(data: Seq<u8>, m: MdbView, n: nat, b: u16)
    requires
        area_inside(data, m, n),
        2 <= b < 2 + n,
    ensures
        m.al_bl_st * 512 <= model::block_start(m, b),
        model::block_start(m, b) + m.al_blk_siz <= data.len(),
{
    let i = b - 2;
    let size = m.al_blk_siz as int;
    assert(0 <= i * size && i * size + size <= n * size) by (nonlinear_arith)
        requires
            0 <= i < n,
            0 < size,
    ;
}

/// Two blocks do not overlap.
proof fn lemma_blocks_apart(m: MdbView, b: u16, c: u16)
    requires
        b < c,
    ensures
        model::block_start(m, b) + m.al_blk_siz <= model::block_start(m, c),
{
    let size = m.al_blk_siz as int;
    let i = b - 2;
    let j = c - 2;
    assert(i * size + size <= j * size) by (nonlinear_arith)
        requires
            i + 1 <= j,
            0 <= size,
    ;
}

/// Writing to some blocks leaves the rest of the image as it was.
pub proof fn lemma_written_elsewhere(
    data: Seq<u8>,
    m: MdbView,
    n: nat,
    blocks: Seq<u16>,
    content: Seq<u8>,
)
    requires
        area_inside(data, m, n),
        blocks_among(blocks, n),
    ensures
        ({
            let w = model::chain_written(data, m, blocks, content);
            &&& w.len() == data.len()
            &&& forall|k: int| 0 <= k < m.al_bl_st * 512 ==> #[trigger] w[k] == data[k]
            &&& forall|b: u16|
                2 <= b < 2 + n && !blocks.contains(b) ==> #[trigger] model::block_bytes(w, m, b)
                    == model::block_bytes(data, m, b)
        }),
    decreases blocks.len(),
{
    if blocks.len() > 0 {
        let size = m.al_blk_siz as nat;
        let c = blocks[0];
        let rest = blocks.skip(1);
        let one = util::splice(data, model::block_start(m, c), model::block_content(content, size));
        let w = model::chain_written(data, m, blocks, content);
        lemma_block_range(data, m, n, c);
        lemma_written_elsewhere(one, m, n, rest, model::beyond_block(content, size));
        assert forall|b: u16| 2 <= b < 2 + n && !blocks.contains(b) implies
            #[trigger] model::block_bytes(w, m, b) == model::block_bytes(data, m, b) by {
            lemma_block_range(data, m, n, b);
            assert(!rest.contains(b)) by {
                if rest.contains(b) {
                    let k = choose|k: int| 0 <= k < rest.len() && rest[k] == b;
                    assert(blocks[k + 1] == b);
                }
            }
            assert(b != blocks[0]);
            if b < c {
                lemma_blocks_apart(m, b, c);
            } else {
                lemma_blocks_apart(m, c, b);
            }
            assert(model::block_bytes(one, m, b) =~= model::block_bytes(data, m, b));
        }
    }
}

/// What was written to some blocks stands in them, with zeros behind it.
pub proof fn lemma_written(data: Seq<u8>, m: MdbView, n: nat, blocks: Seq<u16>, content: Seq<u8>)
    requires
        area_inside(data, m, n),
        blocks_among(blocks, n),
        blocks.no_duplicates(),
        content.len() <= blocks.len() * m.al_blk_siz,
    ensures
        model::chain_bytes(model::chain_written(data, m, blocks, content), m, blocks) == content
            + util::zeros((blocks.len() * m.al_blk_siz - content.len()) as nat),
    decreases blocks.len(),
{
    let size = m.al_blk_siz as nat;
    let k = blocks.len() as int;
    if k == 0 {
        assert(k * size == 0) by (nonlinear_arith)
            requires
                k == 0,
        ;
        assert(content =~= Seq::empty());
        assert(model::chain_bytes(data, m, blocks) =~= content + util::zeros(0));
    } else {
        let c = blocks[0];
        let rest = blocks.skip(1);
        let one = util::splice(data, model::block_start(m, c), model::block_content(content, size));
        let more = model::beyond_block(content, size);
        let w = model::chain_written(data, m, blocks, content);
        assert((k - 1) * size + size == k * size) by (nonlinear_arith);
        assert((k - 1) * size >= 0) by (nonlinear_arith)
            requires
                k >= 1,
        ;
        lemma_block_range(data, m, n, c);
        lemma_written(one, m, n, rest, more);
        lemma_written_elsewhere(one, m, n, rest, more);
        assert(!rest.contains(c)) by {
            if rest.contains(c) {
                let j = choose|j: int| 0 <= j < rest.len() && rest[j] == c;
                assert(blocks[j + 1] == blocks[0]);
            }
        }
        assert(model::block_bytes(one, m, c) =~= model::block_content(content, size));
        assert(model::chain_bytes(w, m, blocks) == model::block_bytes(w, m, c)
            + model::chain_bytes(w, m, rest));
        assert(model::chain_bytes(w, m, blocks) =~= content + util::zeros(
            (k * size - content.len()) as nat,
        ));
    }
}

/// The bytes of a chain depend on its blocks alone.
proof fn lemma_chain_bytes_same(a: Seq<u8>, b: Seq<u8>, m: MdbView, blocks: Seq<u16>)
    requires
        forall|i: int|
            0 <= i < blocks.len() ==> model::block_bytes(a, m, #[trigger] blocks[i])
                == model::block_bytes(b, m, blocks[i]),
    ensures
        model::chain_bytes(a, m, blocks) == model::chain_bytes(b, m, blocks),
    decreases blocks.len(),
{
    if blocks.len() > 0 {
        let rest = blocks.skip(1);
        assert forall|i: int| 0 <= i < rest.len() implies model::block_bytes(
            a,
            m,
            #[trigger] rest[i],
        ) == model::block_bytes(b, m, rest[i]) by {
            assert(rest[i] == blocks[i + 1]);
        }
        assert(model::block_bytes(a, m, blocks[0]) == model::block_bytes(b, m, blocks[0]));
        lemma_chain_bytes_same(a, b, m, rest);
    }
}

// -------------------------------------------------------------------- looking up

/// Looking up a name depends on the names of the entries alone.
pub proof fn lemma_lookup_by_names(a: Seq<EntryView>, b: Seq<EntryView>, name: Seq<char>, from: nat)
    requires
        a.len() == b.len(),
        forall|i: int| 0 <= i < a.len() ==> (#[trigger] a[i]).name == b[i].name,
    ensures
        model::lookup_from(a, name, from) == model::lookup_from(b, name, from),
    decreases a.len() - from,
{
    if from < a.len() {
        assert(a[from as int].name == b[from as int].name);
        lemma_lookup_by_names(a, b, name, from + 1);
    }
}

/// What is found goes by the name, and nothing before it does; nothing is found
/// where no entry goes by the name.
pub proof fn lemma_lookup(entries: Seq<EntryView>, name: Seq<char>, from: nat)
    ensures
        match model::lookup_from(entries, name, from) {
            Some(i) => {
                &&& from <= i < entries.len()
                &&& model::named(entries[i as int], name)
                &&& forall|k: int|
                    from <= k < i ==> !model::named(#[trigger] entries[k], name)
            },
            None => forall|k: int|
                from <= k < entries.len() ==> !model::named(#[trigger] entries[k], name),
        },
    decreases entries.len() - from,
{
    if from < entries.len() && !model::named(entries[from as int], name) {
        lemma_lookup(entries, name, from + 1);
    }
}

// ----------------------------------------------------------- writing and reading

/// The blocks that a write takes hold what is written, with less than a block to
/// spare.
pub proof fn lemma_blocks_needed(len: nat, size: u32)
    requires
        size >= 512,
        len <= u32::MAX,
    ensures
        len <= model::blocks_needed(len, size) * size < len + size,
        len == 0 <==> model::blocks_needed(len, size) == 0,
{
    let x = len + size - 1;
    let q = x / size as int;
    vstd::arithmetic::div_mod::lemma_fundamental_div_mod(x, size as int);
    vstd::arithmetic::div_mod::lemma_mod_bound(x, size as int);
    vstd::arithmetic::div_mod::lemma_div_pos_is_pos(x, size as int);
    assert(size * q == q * size) by (nonlinear_arith);
    assert(q <= u32::MAX) by (nonlinear_arith)
        requires
            q * size <= len + size - 1,
            len <= u32::MAX,
            size >= 512,
            q >= 0,
    ;
    assert(q == 0 ==> q * size == 0) by (nonlinear_arith);
    assert(q >= 1 ==> q * size >= size) by (nonlinear_arith)
        requires
            size >= 512,
    ;
}

/// On a volume of less than 65535 blocks and 4 GB, what a write leaves behind can
/// always be written down.
pub proof fn lemma_representable(v: VolumeView, name: Seq<char>, fork: Fork, len: nat)
    requires
        v.wf(),
        v.map.len() < 65535,
        v.data.len() <= u32::MAX,
    ensures
        model::representable(v, name, fork, len),
{
    if let Ok(p) = model::write_plan(v, name, fork, len) {
        let map1 = blockmap::released(v.map, p.old);
        let start = model::fork_start(v.entries[p.index as int], fork);
        lemma_lookup(v.entries, name, 0);
        if start == 0 {
            model::lemma_released_none(v.map);
        } else {
            blockmap::lemma_freed_count(v.map, start);
        }
        blockmap::lemma_free_blocks(map1);
        let n = v.map.len() as int;
        let needed = p.needed as int;
        let size = v.mdb.al_blk_siz as int;
        assert(needed * size <= n * size) by (nonlinear_arith)
            requires
                0 <= needed <= n,
                0 <= size,
        ;
    }
}

/// What a planned write works with.
pub proof fn lemma_write_plan(v: VolumeView, name: Seq<char>, fork: Fork, len: nat)
    requires
        v.wf(),
        model::write_plan(v, name, fork, len) is Ok,
        model::representable(v, name, fork, len),
    ensures
        ({
            let p = model::write_plan(v, name, fork, len)->Ok_0;
            let map1 = blockmap::released(v.map, p.old);
            let blocks = model::blocks_taken(v, p);
            &&& p.index < v.entries.len()
            &&& map1.len() == v.map.len() <= 65535
            &&& p.needed <= blockmap::count_free(map1)
            &&& blockmap::numbered(map1, p.needed as nat)
            &&& blocks.len() == p.needed
            &&& blocks.no_duplicates()
            &&& blocks_among(blocks, v.map.len())
            &&& blockmap::linked(map1, blocks).len() == v.map.len()
            &&& area_inside(v.data, v.mdb, v.map.len())
        }),
{
    let p = model::write_plan(v, name, fork, len)->Ok_0;
    let start = model::fork_start(v.entries[p.index as int], fork);
    let map1 = blockmap::released(v.map, p.old);
    lemma_lookup(v.entries, name, 0);
    if start == 0 {
        model::lemma_released_none(v.map);
    } else {
        blockmap::lemma_freed_count(v.map, start);
    }
    blockmap::lemma_picked(map1, p.needed as nat);
    let blocks = model::blocks_taken(v, p);
    assert forall|i: int| 0 <= i < blocks.len() implies 2 <= #[trigger] blocks[i] < 2
        + v.map.len() by {
        assert(blockmap::has_block(map1, blocks[i]));
    }
    blockmap::lemma_linked(map1, blocks);
}

/// Whether a write can be made, and what it writes can be read back.
///
/// Left out are contents whose length does not fit in 32 bits, and chains of
/// two or more blocks that reach a block number which does not fit in a map
/// entry of 12 bits; a map of at most 4093 blocks has none.
pub open spec fn write_succeeds(
    v: VolumeView,
    name: Seq<char>,
    fork: Fork,
    content: Seq<u8>,
) -> bool {
    let plan = model::write_plan(v, name, fork, content.len());
    &&& plan is Ok
    &&& model::representable(v, name, fork, content.len())
    &&& content.len() <= u32::MAX
    &&& blockmap::linkable(model::blocks_taken(v, plan->Ok_0))
}

/// Reading a fork after writing it gives back what was written.
pub proof fn lemma_write_read(
    v: VolumeView,
    name: Seq<char>,
    fork: Fork,
    content: Seq<u8>,
    now: u32,
)
    requires
        v.wf(),
        write_succeeds(v, name, fork, content),
    ensures
        model::write_outcome(v, name, fork, content, now) is Ok,
        model::read_outcome(
            model::write_outcome(v, name, fork, content, now)->Ok_0,
            name,
            fork,
        ) == Ok::<Seq<u8>, Fault>(content),
{
    let w = model::write_outcome(v, name, fork, content, now)->Ok_0;
    let p = model::write_plan(v, name, fork, content.len())->Ok_0;
    let map1 = blockmap::released(v.map, p.old);
    let blocks = model::blocks_taken(v, p);
    lemma_write_plan(v, name, fork, content.len());
    lemma_lookup_by_names(v.entries, w.entries, name, 0);
    lemma_blocks_needed(content.len(), v.mdb.al_blk_siz);
    lemma_written(v.data, v.mdb, v.map.len(), blocks, content);
    if blocks.len() == 0 {
        assert(content =~= Seq::empty());
    } else {
        blockmap::lemma_allocated_is_chain(map1, p.needed as nat);
        blockmap::lemma_chain_unique(w.map, blocks[0], blocks);
        lemma_chain_bytes_mdb(w.data, w.mdb, v.mdb, blocks);
        assert(model::chain_bytes(w.data, v.mdb, blocks).take(content.len() as int) =~= content);
    }
}

/// The allocated length of a fork of `len` bytes in blocks of `size` bytes: as
/// many whole blocks as it takes.
pub open spec fn rounded_up(len: nat, size: u32) -> int {
    (len + size - 1) / size as int * size
}

/// On a volume whose block numbers all fit in a map entry, reading a fork after
/// writing it gives back what was written. The fork has the length that was
/// written and takes as many whole blocks as that needs.
///
/// Left out are contents whose allocated length does not fit in 32 bits.
#[verifier::rlimit(30)]
pub proof fn lemma_write_back(
    v: VolumeView,
    name: Seq<char>,
    fork: Fork,
    content: Seq<u8>,
    now: u32,
)
    requires
        v.wf(),
        v.map.len() <= 4093,
        rounded_up(content.len(), v.mdb.al_blk_siz) <= u32::MAX,
        model::write_outcome(v, name, fork, content, now) is Ok,
    ensures
        write_succeeds(v, name, fork, content),
        ({
            let w = model::write_outcome(v, name, fork, content, now)->Ok_0;
            let e = w.entries[model::lookup(w.entries, name)->0 as int];
            &&& w.wf()
            &&& model::read_outcome(w, name, fork) == Ok::<Seq<u8>, Fault>(content)
            &&& model::file_outcome(w, name) == Ok::<model::FileView, Fault>(model::file_of(e))
            &&& model::fork_len(e, fork) == content.len()
            &&& model::fork_alloc(e, fork) == rounded_up(content.len(), v.mdb.al_blk_siz)
        }),
{
    let len = content.len();
    let size = v.mdb.al_blk_siz;
    let w = model::write_outcome(v, name, fork, content, now)->Ok_0;
    let p = model::write_plan(v, name, fork, len)->Ok_0;
    let q = (len + size - 1) / size as int;
    vstd::arithmetic::div_mod::lemma_fundamental_div_mod(len + size - 1, size as int);
    vstd::arithmetic::div_mod::lemma_mod_bound(len + size - 1, size as int);
    assert(size * q == q * size) by (nonlinear_arith);
    assert(len <= q * size);
    lemma_blocks_needed(len, size);
    assert(q <= u32::MAX) by (nonlinear_arith)
        requires
            q * size <= u32::MAX,
            size >= 512,
    ;
    vstd::arithmetic::div_mod::lemma_div_pos_is_pos(len + size - 1, size as int);
    assert(p.needed == q);
    lemma_small_map_linkable(v, name, fork, len);
    lemma_write_read(v, name, fork, content, now);
    lemma_write_wf(v, name, fork, content, now);
    lemma_lookup(v.entries, name, 0);
    lemma_lookup_by_names(v.entries, w.entries, name, 0);
}

/// The bytes of a chain do not depend on the counters and dates of the MDB.
pub proof fn lemma_chain_bytes_mdb(data: Seq<u8>, a: MdbView, b: MdbView, blocks: Seq<u16>)
    requires
        a.al_bl_st == b.al_bl_st,
        a.al_blk_siz == b.al_blk_siz,
    ensures
        model::chain_bytes(data, a, blocks) == model::chain_bytes(data, b, blocks),
    decreases blocks.len(),
{
    if blocks.len() > 0 {
        lemma_chain_bytes_mdb(data, a, b, blocks.skip(1));
    }
}

/// A map of at most 4093 blocks has no block number that does not fit in a map
/// entry.
pub proof fn lemma_small_map_linkable(v: VolumeView, name: Seq<char>, fork: Fork, len: nat)
    requires
        v.wf(),
        v.map.len() <= 4093,
        model::write_plan(v, name, fork, len) is Ok,
    ensures
        blockmap::linkable(model::blocks_taken(v, model::write_plan(v, name, fork, len)->Ok_0)),
{
    let p = model::write_plan(v, name, fork, len)->Ok_0;
    let map1 = blockmap::released(v.map, p.old);
    let start = model::fork_start(v.entries[p.index as int], fork);
    lemma_lookup(v.entries, name, 0);
    if start == 0 {
        model::lemma_released_none(v.map);
    } else {
        blockmap::lemma_freed_count(v.map, start);
    }
    blockmap::lemma_picked(map1, p.needed as nat);
}

/// Writing one fork leaves every other fork as it was, of the same file or of
/// another, unless the two share blocks.
pub proof fn lemma_write_keeps(
    v: VolumeView,
    name: Seq<char>,
    fork: Fork,
    content: Seq<u8>,
    now: u32,
    j: int,
    other: Fork,
    asked: Seq<char>,
)
    requires
        v.wf(),
        model::write_outcome(v, name, fork, content, now) is Ok,
        model::representable(v, name, fork, content.len()),
        0 <= j < v.entries.len(),
        ({
            let p = model::write_plan(v, name, fork, content.len())->Ok_0;
            let chain = model::fork_chain(v, model::fork_start(v.entries[j], other));
            &&& j != p.index || other != fork
            &&& chain is Ok
            &&& blockmap::disjoint(chain->Ok_0, p.old)
        }),
    ensures
        ({
            let w = model::write_outcome(v, name, fork, content, now)->Ok_0;
            model::fork_outcome(w, w.entries[j], asked, other) == model::fork_outcome(
                v,
                v.entries[j],
                asked,
                other,
            )
        }),
{
    let w = model::write_outcome(v, name, fork, content, now)->Ok_0;
    let p = model::write_plan(v, name, fork, content.len())->Ok_0;
    let map1 = blockmap::released(v.map, p.old);
    let blocks = model::blocks_taken(v, p);
    let start = model::fork_start(v.entries[j], other);
    lemma_write_plan(v, name, fork, content.len());
    assert(model::fork_start(w.entries[j], other) == start);
    assert(model::fork_len(w.entries[j], other) == model::fork_len(v.entries[j], other));
    if start != 0 {
        let chain = blockmap::chain_from(v.map, start)->Ok_0;
        blockmap::lemma_chain_found(v.map, start, chain);
        blockmap::lemma_release_keeps_chain(v.map, p.old, start, chain);
        blockmap::lemma_allocate_keeps_chain(map1, p.needed as nat, start, chain);
        blockmap::lemma_chain_unique(w.map, start, chain);
        lemma_written_elsewhere(v.data, v.mdb, v.map.len(), blocks, content);
        assert forall|i: int| 0 <= i < chain.len() implies model::block_bytes(
            w.data,
            v.mdb,
            #[trigger] chain[i],
        ) == model::block_bytes(v.data, v.mdb, chain[i]) by {
            assert(blockmap::has_block(v.map, chain[i]));
            assert(!blocks.contains(chain[i])) by {
                if blocks.contains(chain[i]) {
                    let k = choose|k: int| 0 <= k < blocks.len() && blocks[k] == chain[i];
                    assert(chain[i] != blocks[k]);
                }
            }
        }
        lemma_chain_bytes_same(w.data, v.data, v.mdb, chain);
        lemma_chain_bytes_mdb(w.data, w.mdb, v.mdb, chain);
    }
}

/// A fork reads the same from the image that a volume was saved to.
pub proof fn lemma_saved_fork(v: VolumeView, e: EntryView, asked: Seq<char>, fork: Fork)
    requires
        v.wf(),
    ensures
        model::fork_outcome(reread(v), e, asked, fork) == model::fork_outcome(v, e, asked, fork),
{
    let w = reread(v);
    let start = model::fork_start(e, fork);
    lemma_serialized(v);
    if start != 0 && blockmap::chain_from(v.map, start) is Ok {
        let chain = blockmap::chain_from(v.map, start)->Ok_0;
        blockmap::lemma_chain_found(v.map, start, chain);
        assert forall|i: int| 0 <= i < chain.len() implies model::block_bytes(
            w.data,
            v.mdb,
            #[trigger] chain[i],
        ) == model::block_bytes(v.data, v.mdb, chain[i]) by {
            assert(blockmap::has_block(v.map, chain[i]));
            model::lemma_block_inside(v, chain[i]);
            assert(model::block_bytes(w.data, v.mdb, chain[i]) =~= model::block_bytes(
                v.data,
                v.mdb,
                chain[i],
            ));
        }
        lemma_chain_bytes_same(w.data, v.data, v.mdb, chain);
    }
}

/// Every fork that can be read before a volume is saved reads the same from the
/// image it was saved to.
pub proof fn lemma_saved_reads(v: VolumeView, name: Seq<char>, fork: Fork)
    requires
        v.wf(),
    ensures
        ({
            let back = model::forced_outcome(model::image(v), model::format_of(v.container));
            &&& back is Ok
            &&& model::read_outcome(back->Ok_0, name, fork) == model::read_outcome(v, name, fork)
            &&& model::file_outcome(back->Ok_0, name) == model::file_outcome(v, name)
            &&& model::info_of(back->Ok_0) == model::info_of(v)
        }),
{
    lemma_save_open(v);
    lemma_lookup(v.entries, name, 0);
    match model::lookup(v.entries, name) {
        Some(i) => lemma_saved_fork(v, v.entries[i as int], name, fork),
        None => {},
    }
}

/// What was written to a fork can be read back from the image the volume was
/// saved to.
pub proof fn lemma_write_save_read(
    v: VolumeView,
    w: VolumeView,
    name: Seq<char>,
    fork: Fork,
    content: Seq<u8>,
    now: u32,
)
    requires
        v.wf(),
        write_succeeds(v, name, fork, content),
        model::write_outcome(v, name, fork, content, now) == Ok::<VolumeView, Fault>(w),
    ensures
        w.wf(),
        ({
            let back = model::forced_outcome(model::image(w), model::format_of(w.container));
            back is Ok && model::read_outcome(back->Ok_0, name, fork) == Ok::<Seq<u8>, Fault>(
                content,
            )
        }),
{
    lemma_write_wf(v, name, fork, content, now);
    lemma_write_read(v, name, fork, content, now);
    lemma_saved_reads(w, name, fork);
}

/// A write keeps a volume well formed.
pub proof fn lemma_write_wf(v: VolumeView, name: Seq<char>, fork: Fork, content: Seq<u8>, now: u32)
    requires
        v.wf(),
        model::write_plan(v, name, fork, content.len()) is Ok,
        model::representable(v, name, fork, content.len()),
    ensures
        model::write_outcome(v, name, fork, content, now)->Ok_0.wf(),
{
    let w = model::write_outcome(v, name, fork, content, now)->Ok_0;
    let p = model::write_plan(v, name, fork, content.len())->Ok_0;
    let map1 = blockmap::released(v.map, p.old);
    let blocks = model::blocks_taken(v, p);
    lemma_write_plan(v, name, fork, content.len());
    lemma_written_elsewhere(v.data, v.mdb, v.map.len(), blocks, content);
    dir::lemma_placed_by_names(v.entries, w.entries, v.mdb.dir_len as nat, 0, 0);
    blockmap::lemma_linked(map1, blocks);
    assert forall|i: int| 0 <= i < w.map.len() implies #[trigger] w.map[i] <= 0xFFF by {
        if i + 2 <= 65535 {
            let b = (i + 2) as u16;
            assert(blockmap::has_block(map1, b));
            if blocks.contains(b) {
                let k = choose|k: int| 0 <= k < blocks.len() && blocks[k] == b;
                assert(blockmap::entry(w.map, blocks[k]) == blockmap::link(blocks, k));
            }
        }
    }
}

} // verus!

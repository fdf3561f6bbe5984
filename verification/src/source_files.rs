//! The Rust files under given paths.
//!
//! A path is taken apart into its components, and what lies under it is given as a tree. Which
//! files count, which directories are entered and in what order the files come is decided here.

use vstd::prelude::*;
use vstd::utf8::{
    char_u32_cast, decode_utf8, decode_utf8_encode_utf8, encode_scalar, encode_utf8,
    encode_utf8_decode_utf8,
    encode_utf8_valid_utf8, is_ascii_chars_encode_utf8, valid_utf8,
};

verus! {

/// A prefix of a path, by its kind. It says what the prefix means, not how it is spelled: a drive
/// letter is in upper case, whichever case it was written in.
#[derive(Debug)]
pub enum PathPrefix {
    /// `\\?\name`.
    Verbatim(Vec<u8>),
    /// `\\?\UNC\server\share`.
    VerbatimUnc(Vec<u8>, Vec<u8>),
    /// `\\?\C:`.
    VerbatimDisk(u8),
    /// `\\.\name`.
    DeviceNs(Vec<u8>),
    /// `\\server\share`.
    Unc(Vec<u8>, Vec<u8>),
    /// `C:`.
    Disk(u8),
}

/// A component of a path.
#[derive(Debug)]
pub enum Component {
    /// A prefix such as a drive letter.
    Prefix(PathPrefix),
    /// The root directory.
    RootDir,
    /// The current directory, `.`.
    CurDir,
    /// The parent directory, `..`.
    ParentDir,
    /// The name of a file or directory.
    Normal(Vec<u8>),
}

/// A path, as the components that it is made of.
#[derive(Debug)]
pub struct SourcePath {
    pub components: Vec<Component>,
}

/// What was found at a path.
#[derive(Debug)]
pub enum Entry {
    File,
    /// A directory, with what it holds.
    Directory(Vec<FileTree>),
    /// Neither a file nor a directory, a link for example.
    Other,
}

/// A path and what was found there.
#[derive(Debug)]
pub struct FileTree {
    pub path: SourcePath,
    pub entry: Entry,
}

/// The numbers that order components: first the rank of the kind, then the bytes. A prefix has the
/// rank of its own kind next, and a number below all bytes between a server and its share, so that
/// the server decides first.
pub type ComponentKey = Seq<int>;

/// The bytes of a name as numbers.
pub open spec fn byte_values(bytes: Seq<u8>) -> Seq<int> {
    bytes.map_values(|b: u8| b as int)
}

impl View for PathPrefix {
    type V = ComponentKey;

    open spec fn view(&self) -> ComponentKey {
        match *self {
            PathPrefix::Verbatim(name) => seq![0int] + byte_values(name@),
            PathPrefix::VerbatimUnc(server, share) => seq![1int] + byte_values(server@) + seq![
                -1int,
            ] + byte_values(share@),
            PathPrefix::VerbatimDisk(letter) => seq![2int, letter as int],
            PathPrefix::DeviceNs(name) => seq![3int] + byte_values(name@),
            PathPrefix::Unc(server, share) => seq![4int] + byte_values(server@) + seq![-1int]
                + byte_values(share@),
            PathPrefix::Disk(letter) => seq![5int, letter as int],
        }
    }
}

impl View for Component {
    type V = ComponentKey;

    open spec fn view(&self) -> ComponentKey {
        match *self {
            Component::Prefix(prefix) => seq![0int] + prefix@,
            Component::RootDir => seq![1int],
            Component::CurDir => seq![2int],
            Component::ParentDir => seq![3int],
            Component::Normal(name) => seq![4int] + byte_values(name@),
        }
    }
}

impl View for SourcePath {
    type V = Seq<ComponentKey>;

    open spec fn view(&self) -> Seq<ComponentKey> {
        self.components@.map_values(|c: Component| c@)
    }
}

impl SourcePath {
    /// The name of the file or directory that the path leads to: its last component, where that
    /// is a name.
    pub open spec fn name(self) -> Option<Seq<u8>> {
        if self.components@.len() > 0 {
            match self.components@.last() {
                Component::Normal(name) => Some(name@),
                _ => None,
            }
        } else {
            None
        }
    }

    /// The name of the file or directory that the path leads to.
    pub fn file_name(&self) -> (r: Option<&Vec<u8>>)
        ensures
            match r {
                Some(name) => self.name() == Some(name@),
                None => self.name() is None,
            },
    {
        if self.components.len() == 0 {
            return None;
        }
        match &self.components[self.components.len() - 1] {
            Component::Normal(name) => Some(name),
            _ => None,
        }
    }
}

/// What each path of `list` says.
pub open spec fn path_keys(list: Seq<SourcePath>) -> Seq<Seq<ComponentKey>> {
    list.map_values(|p: SourcePath| p@)
}

/// Whether `a` comes before `b`, the first difference deciding.
pub open spec fn key_before(a: ComponentKey, b: ComponentKey) -> bool
    decreases b.len(),
{
    b.len() > 0 && (a.len() == 0 || a[0] < b[0] || (a[0] == b[0] && key_before(
        a.drop_first(),
        b.drop_first(),
    )))
}

/// Whether the path `a` comes before `b`: component by component, the first difference deciding.
pub open spec fn path_before(a: Seq<ComponentKey>, b: Seq<ComponentKey>) -> bool
    decreases b.len(),
{
    b.len() > 0 && (a.len() == 0 || key_before(a[0], b[0]) || (a[0] == b[0] && path_before(
        a.drop_first(),
        b.drop_first(),
    )))
}

proof fn lemma_key_order(a: ComponentKey, b: ComponentKey, c: ComponentKey)
    ensures
        !key_before(a, a),
        key_before(a, b) || a == b || key_before(b, a),
        key_before(a, b) && key_before(b, c) ==> key_before(a, c),
    decreases a.len() + b.len() + c.len(),
{
    lemma_key_order_same(a);
    if a.len() > 0 && b.len() > 0 {
        let x = a.drop_first();
        let y = b.drop_first();
        if c.len() > 0 {
            lemma_key_order(x, y, c.drop_first());
        } else {
            lemma_key_order(x, y, c);
        }
        if x == y && a[0] == b[0] {
            assert(a =~= seq![a[0]] + x);
            assert(b =~= seq![b[0]] + y);
        }
    } else if a.len() == 0 && b.len() == 0 {
        assert(a =~= b);
    }
}

proof fn lemma_key_order_same(a: ComponentKey)
    ensures
        !key_before(a, a),
    decreases a.len(),
{
    if a.len() > 0 {
        lemma_key_order_same(a.drop_first());
    }
}

/// The order of paths is strict and total.
pub proof fn lemma_path_order(a: Seq<ComponentKey>, b: Seq<ComponentKey>, c: Seq<ComponentKey>)
    ensures
        !path_before(a, a),
        path_before(a, b) || a == b || path_before(b, a),
        path_before(a, b) && path_before(b, c) ==> path_before(a, c),
    decreases a.len() + b.len() + c.len(),
{
    lemma_path_order_same(a);
    if a.len() > 0 && b.len() > 0 {
        let x = a.drop_first();
        let y = b.drop_first();
        if c.len() > 0 {
            lemma_path_order(x, y, c.drop_first());
            lemma_key_order(a[0], b[0], c[0]);
        } else {
            lemma_path_order(x, y, c);
            lemma_key_order(a[0], b[0], a[0]);
        }
        if x == y && a[0] == b[0] {
            assert(a =~= seq![a[0]] + x);
            assert(b =~= seq![b[0]] + y);
        }
    } else if a.len() == 0 && b.len() == 0 {
        assert(a =~= b);
    }
}

proof fn lemma_path_order_same(a: Seq<ComponentKey>)
    ensures
        !path_before(a, a),
    decreases a.len(),
{
    if a.len() > 0 {
        lemma_path_order_same(a.drop_first());
        lemma_key_order_same(a[0]);
    }
}

/// The first difference decides: of two keys, one comes before the other exactly where they agree up
/// to some place at which it ends or has the smaller number.
pub proof fn lemma_keys_are_ordered_by_first_difference(a: ComponentKey, b: ComponentKey)
    ensures
        key_before(a, b) <==> exists|k: int|
            0 <= k <= a.len() && k < b.len() && #[trigger] a.take(k) == b.take(k) && (k == a.len()
                || a[k] < b[k]),
    decreases b.len(),
{
    let x = a.drop_first();
    let y = b.drop_first();
    if a.len() > 0 && b.len() > 0 {
        lemma_keys_are_ordered_by_first_difference(x, y);
    }
    if key_before(a, b) {
        if a.len() == 0 || a[0] < b[0] {
            assert(a.take(0) =~= b.take(0));
        } else {
            let k = choose|k: int|
                0 <= k <= x.len() && k < y.len() && #[trigger] x.take(k) == y.take(k) && (k
                    == x.len() || x[k] < y[k]);
            assert(a.take(k + 1) =~= seq![a[0]] + x.take(k));
            assert(b.take(k + 1) =~= seq![b[0]] + y.take(k));
        }
    }
    if exists|k: int|
        0 <= k <= a.len() && k < b.len() && #[trigger] a.take(k) == b.take(k) && (k == a.len()
            || a[k] < b[k]) {
        let k = choose|k: int|
            0 <= k <= a.len() && k < b.len() && #[trigger] a.take(k) == b.take(k) && (k == a.len()
                || a[k] < b[k]);
        if k > 0 {
            assert(a.take(k)[0] == b.take(k)[0]);
            assert(x.take(k - 1) =~= a.take(k).drop_first());
            assert(y.take(k - 1) =~= b.take(k).drop_first());
        }
    }
}

/// The first component in which they differ decides: of two paths, one comes before the other
/// exactly where they agree up to some component at which it ends or has the one that comes first.
pub proof fn lemma_paths_are_ordered_by_first_difference(
    a: Seq<ComponentKey>,
    b: Seq<ComponentKey>,
)
    ensures
        path_before(a, b) <==> exists|k: int|
            0 <= k <= a.len() && k < b.len() && #[trigger] a.take(k) == b.take(k) && (k == a.len()
                || key_before(a[k], b[k])),
    decreases b.len(),
{
    let x = a.drop_first();
    let y = b.drop_first();
    if a.len() > 0 && b.len() > 0 {
        lemma_paths_are_ordered_by_first_difference(x, y);
    }
    if path_before(a, b) {
        if a.len() == 0 || key_before(a[0], b[0]) {
            assert(a.take(0) =~= b.take(0));
        } else {
            let k = choose|k: int|
                0 <= k <= x.len() && k < y.len() && #[trigger] x.take(k) == y.take(k) && (k
                    == x.len() || key_before(x[k], y[k]));
            assert(a.take(k + 1) =~= seq![a[0]] + x.take(k));
            assert(b.take(k + 1) =~= seq![b[0]] + y.take(k));
        }
    }
    if exists|k: int|
        0 <= k <= a.len() && k < b.len() && #[trigger] a.take(k) == b.take(k) && (k == a.len()
            || key_before(a[k], b[k])) {
        let k = choose|k: int|
            0 <= k <= a.len() && k < b.len() && #[trigger] a.take(k) == b.take(k) && (k == a.len()
                || key_before(a[k], b[k]));
        if k > 0 {
            assert(a.take(k)[0] == b.take(k)[0]);
            assert(x.take(k - 1) =~= a.take(k).drop_first());
            assert(y.take(k - 1) =~= b.take(k).drop_first());
        }
    }
}

/// Components are ordered by their kind first, as a prefix, the root, `.`, `..` and names come in
/// this order; names are ordered by the first byte in which they differ, a shorter one first, and
/// are the same exactly where they have the same bytes.
pub proof fn lemma_components_are_ordered_by_kind(a: Component, b: Component)
    ensures
        a is Prefix && !(b is Prefix) ==> key_before(a@, b@),
        a is RootDir && (b is CurDir || b is ParentDir || b is Normal) ==> key_before(a@, b@),
        a is CurDir && (b is ParentDir || b is Normal) ==> key_before(a@, b@),
        a is ParentDir && b is Normal ==> key_before(a@, b@),
        (a is RootDir && b is RootDir) || (a is CurDir && b is CurDir) || (a is ParentDir
            && b is ParentDir) ==> a@ == b@,
        a is Normal && b is Normal ==> (a@ == b@ <==> a->Normal_0@ == b->Normal_0@),
        a is Normal && b is Normal ==> (key_before(a@, b@) <==> exists|k: int|
            0 <= k <= a->Normal_0@.len() && k < b->Normal_0@.len() && #[trigger] a->Normal_0@.take(
                k,
            ) == b->Normal_0@.take(k) && (k == a->Normal_0@.len() || a->Normal_0@[k]
                < b->Normal_0@[k])),
{
    if a is Normal && b is Normal {
        let x = a->Normal_0@;
        let y = b->Normal_0@;
        let p = byte_values(x);
        let q = byte_values(y);
        assert(a@.drop_first() =~= p);
        assert(b@.drop_first() =~= q);
        assert(x.len() == p.len() && y.len() == q.len());
        if a@ == b@ {
            assert forall|i: int| 0 <= i < x.len() implies x[i] == y[i] by {
                assert(p[i] == q[i]);
            }
            assert(x =~= y);
        }
        lemma_keys_are_ordered_by_first_difference(p, q);
        if key_before(p, q) {
            let k = choose|k: int|
                0 <= k <= p.len() && k < q.len() && #[trigger] p.take(k) == q.take(k) && (k
                    == p.len() || p[k] < q[k]);
            assert(x.take(k) =~= y.take(k)) by {
                assert forall|i: int| 0 <= i < k implies x[i] == y[i] by {
                    assert(p.take(k)[i] == q.take(k)[i]);
                }
            }
        }
        if exists|k: int|
            0 <= k <= x.len() && k < y.len() && #[trigger] x.take(k) == y.take(k) && (k == x.len()
                || x[k] < y[k]) {
            let k = choose|k: int|
                0 <= k <= x.len() && k < y.len() && #[trigger] x.take(k) == y.take(k) && (k
                    == x.len() || x[k] < y[k]);
            assert(p.take(k) =~= q.take(k)) by {
                assert forall|i: int| 0 <= i < k implies p[i] == q[i] by {
                    assert(x.take(k)[i] == y.take(k)[i]);
                }
            }
        }
    }
}

/// Prefixes are ordered by their kind first, and drives by their letter.
pub proof fn lemma_prefixes_are_ordered_by_kind(a: PathPrefix, b: PathPrefix)
    ensures
        a is Verbatim && !(b is Verbatim) ==> key_before(a@, b@),
        a is VerbatimUnc && (b is VerbatimDisk || b is DeviceNs || b is Unc || b is Disk)
            ==> key_before(a@, b@),
        a is VerbatimDisk && (b is DeviceNs || b is Unc || b is Disk) ==> key_before(a@, b@),
        a is DeviceNs && (b is Unc || b is Disk) ==> key_before(a@, b@),
        a is Unc && b is Disk ==> key_before(a@, b@),
        a is Disk && b is Disk ==> (key_before(a@, b@) <==> a->Disk_0 < b->Disk_0),
        a is Disk && b is Disk ==> (a@ == b@ <==> a->Disk_0 == b->Disk_0),
        a is VerbatimDisk && b is VerbatimDisk ==> (key_before(a@, b@) <==> a->VerbatimDisk_0
            < b->VerbatimDisk_0),
{
    reveal_with_fuel(key_before, 3);
    if a is Disk && b is Disk {
        assert(a@[1] == a->Disk_0 && b@[1] == b->Disk_0);
        assert(a@.drop_first()[0] == a@[1]);
        assert(b@.drop_first()[0] == b@[1]);
    }
    if a is VerbatimDisk && b is VerbatimDisk {
        assert(a@[1] == a->VerbatimDisk_0 && b@[1] == b->VerbatimDisk_0);
        assert(a@.drop_first()[0] == a@[1]);
        assert(b@.drop_first()[0] == b@[1]);
    }
}

/// A path has the name that its last component is, and no name where that is not one; its order is
/// that of its components.
pub proof fn lemma_name_is_the_last_component(path: SourcePath)
    ensures
        path.components@.len() == 0 ==> path.name() is None,
        path.components@.len() > 0 ==> match path.components@[path.components@.len() - 1] {
            Component::Normal(name) => path.name() == Some(name@),
            _ => path.name() is None,
        },
        path@.len() == path.components@.len(),
        forall|i: int| 0 <= i < path@.len() ==> #[trigger] path@[i] == path.components@[i]@,
{
}

/// Whether each path comes before those behind it.
pub open spec fn strictly_sorted(list: Seq<Seq<ComponentKey>>) -> bool {
    forall|i: int, j: int| 0 <= i < j < list.len() ==> path_before(list[i], list[j])
}

/// Whether the file name `name` has the extension `extension`: the part behind its last dot, which
/// must not be its first character.
pub open spec fn has_extension(name: Option<Seq<u8>>, extension: Seq<u8>) -> bool {
    match name {
        Some(name) => name.len() > extension.len() + 1 && name.skip(
            name.len() - extension.len(),
        ) == extension && name[name.len() - extension.len() - 1] == 46 && !extension.contains(46),
        None => false,
    }
}

/// Whether a directory with this name is not entered: hidden directories, because checkouts of
/// tools may lie there, and those that hold what is built or fetched.
pub open spec fn skipped(name: Option<Seq<u8>>) -> bool {
    match name {
        Some(name) => valid_utf8(name) && ((name.len() > 0 && name[0] == 46) || name
            == target_name() || name == modules_name()),
        None => false,
    }
}

/// `target`.
pub open spec fn target_name() -> Seq<u8> {
    seq![116u8, 97, 114, 103, 101, 116]
}

/// `node_modules`.
pub open spec fn modules_name() -> Seq<u8> {
    seq![110u8, 111, 100, 101, 95, 109, 111, 100, 117, 108, 101, 115]
}

/// The extension of Rust files.
pub open spec fn rust_extension() -> Seq<u8> {
    seq![114u8, 115]
}

/// The Rust files of a tree, in the order in which a walk meets them.
pub open spec fn found(tree: FileTree) -> Seq<Seq<ComponentKey>>
    decreases tree,
{
    match tree.entry {
        Entry::File => if has_extension(tree.path.name(), rust_extension()) {
            seq![tree.path@]
        } else {
            Seq::empty()
        },
        Entry::Directory(children) => if skipped(tree.path.name()) {
            Seq::empty()
        } else {
            found_all(children@)
        },
        Entry::Other => Seq::empty(),
    }
}

/// The Rust files of several trees, one tree after the other.
pub open spec fn found_all(trees: Seq<FileTree>) -> Seq<Seq<ComponentKey>>
    decreases trees,
{
    if trees.len() == 0 {
        Seq::empty()
    } else {
        found_all(trees.drop_last()) + found(trees.last())
    }
}

/// `std::str::from_utf8` succeeds exactly on valid UTF-8.
#[verifier::external_body]
fn is_utf8(bytes: &[u8]) -> (r: bool)
    ensures
        r == valid_utf8(bytes@),
{
    std::str::from_utf8(bytes).is_ok()
}

/// Whether `bytes` holds exactly the bytes of `other`.
fn same_bytes(bytes: &[u8], other: &[u8]) -> (r: bool)
    ensures
        r == (bytes@ == other@),
{
    if bytes.len() != other.len() {
        return false;
    }
    let mut i: usize = 0;
    while i < bytes.len()
        invariant
            i <= bytes@.len(),
            bytes@.len() == other@.len(),
            forall|k: int| 0 <= k < i ==> bytes@[k] == other@[k],
        decreases bytes@.len() - i,
    {
        if bytes[i] != other[i] {
            return false;
        }
        i = i + 1;
    }
    assert(bytes@ =~= other@);
    true
}

/// Whether `byte` is among `bytes`.
fn holds_byte(bytes: &[u8], byte: u8) -> (r: bool)
    ensures
        r == bytes@.contains(byte),
{
    let mut i: usize = 0;
    while i < bytes.len()
        invariant
            i <= bytes@.len(),
            forall|k: int| 0 <= k < i ==> bytes@[k] != byte,
        decreases bytes@.len() - i,
    {
        if bytes[i] == byte {
            return true;
        }
        i = i + 1;
    }
    false
}

/// Whether a path leads to a file with the extension `extension`.
pub fn path_has_extension(path: &SourcePath, extension: &[u8]) -> (r: bool)
    ensures
        r == has_extension(path.name(), extension@),
{
    match path.file_name() {
        Some(name) => {
            let len: usize = name.len();
            if len <= extension.len() || len - extension.len() <= 1 {
                return false;
            }
            let cut: usize = len - extension.len();
            let tail = vstd::slice::slice_subrange(name.as_slice(), cut, len);
            assert(tail@ =~= name@.skip(cut as int));
            name[cut - 1] == 46 && same_bytes(tail, extension) && !holds_byte(extension, 46)
        },
        None => false,
    }
}

/// Whether the directory at `path` is not entered.
pub fn should_skip_dir(path: &SourcePath) -> (r: bool)
    ensures
        r == skipped(path.name()),
{
    match path.file_name() {
        Some(name) => {
            let target: [u8; 6] = [116, 97, 114, 103, 101, 116];
            let modules: [u8; 12] = [110, 111, 100, 101, 95, 109, 111, 100, 117, 108, 101, 115];
            assert(target@ =~= target_name());
            assert(modules@ =~= modules_name());
            is_utf8(name.as_slice()) && ((name.len() > 0 && name[0] == 46) || same_bytes(
                name.as_slice(),
                target.as_slice(),
            ) || same_bytes(name.as_slice(), modules.as_slice()))
        },
        None => false,
    }
}

/// How two things are ordered.
#[derive(Clone, Copy, PartialEq, Eq, Structural)]
pub enum Order {
    Before,
    Same,
    After,
}

/// The numbers in `key`.
spec fn key_values(key: Seq<i16>) -> ComponentKey {
    key.map_values(|n: i16| n as int)
}

/// Puts the bytes of a name behind `key`.
fn push_bytes(key: &mut Vec<i16>, bytes: &[u8])
    ensures
        key_values(final(key)@) == key_values(old(key)@) + byte_values(bytes@),
{
    let ghost before = key_values(key@);
    let mut i: usize = 0;
    assert(before + byte_values(bytes@).take(0) =~= before);
    while i < bytes.len()
        invariant
            i <= bytes@.len(),
            key_values(key@) == before + byte_values(bytes@).take(i as int),
        decreases bytes@.len() - i,
    {
        let ghost now = key_values(key@);
        key.push(bytes[i] as i16);
        proof {
            assert(key_values(key@) =~= now.push(bytes@[i as int] as int));
            assert(byte_values(bytes@).take(i as int + 1) =~= byte_values(bytes@).take(
                i as int,
            ).push(bytes@[i as int] as int));
            assert(key_values(key@) =~= before + byte_values(bytes@).take(i as int + 1));
        }
        i = i + 1;
    }
    assert(byte_values(bytes@).take(i as int) =~= byte_values(bytes@));
}

/// Puts a number behind `key`.
fn push_number(key: &mut Vec<i16>, number: i16)
    ensures
        key_values(final(key)@) == key_values(old(key)@) + seq![number as int],
{
    key.push(number);
    assert(key_values(key@) =~= key_values(old(key)@) + seq![number as int]);
}

/// Puts the key of a prefix behind `key`.
fn push_prefix(key: &mut Vec<i16>, prefix: &PathPrefix)
    ensures
        key_values(final(key)@) == key_values(old(key)@) + prefix@,
{
    let ghost before = key_values(key@);
    match prefix {
        PathPrefix::Verbatim(name) => {
            push_number(key, 0);
            push_bytes(key, name.as_slice());
        },
        PathPrefix::VerbatimUnc(server, share) => {
            push_number(key, 1);
            push_bytes(key, server.as_slice());
            push_number(key, -1);
            push_bytes(key, share.as_slice());
        },
        PathPrefix::VerbatimDisk(letter) => {
            push_number(key, 2);
            push_number(key, *letter as i16);
        },
        PathPrefix::DeviceNs(name) => {
            push_number(key, 3);
            push_bytes(key, name.as_slice());
        },
        PathPrefix::Unc(server, share) => {
            push_number(key, 4);
            push_bytes(key, server.as_slice());
            push_number(key, -1);
            push_bytes(key, share.as_slice());
        },
        PathPrefix::Disk(letter) => {
            push_number(key, 5);
            push_number(key, *letter as i16);
        },
    }
    assert(key_values(key@) =~= before + prefix@);
}

/// The numbers that order a component.
fn component_key(component: &Component) -> (r: Vec<i16>)
    ensures
        key_values(r@) == component@,
{
    let mut key: Vec<i16> = Vec::new();
    assert(key_values(key@) =~= Seq::<int>::empty());
    match component {
        Component::Prefix(prefix) => {
            push_number(&mut key, 0);
            push_prefix(&mut key, prefix);
        },
        Component::RootDir => {
            push_number(&mut key, 1);
        },
        Component::CurDir => {
            push_number(&mut key, 2);
        },
        Component::ParentDir => {
            push_number(&mut key, 3);
        },
        Component::Normal(name) => {
            push_number(&mut key, 4);
            push_bytes(&mut key, name.as_slice());
        },
    }
    assert(key_values(key@) =~= component@);
    key
}

/// The order of two components.
fn order_components(a: &Component, b: &Component) -> (r: Order)
    ensures
        r == Order::Before <==> key_before(a@, b@),
        r == Order::Same <==> a@ == b@,
{
    let x = component_key(a);
    let y = component_key(b);
    let mut i: usize = 0;
    proof {
        assert(a@.skip(0) =~= a@);
        assert(b@.skip(0) =~= b@);
        assert(a@.len() == x@.len());
        assert(b@.len() == y@.len());
    }
    while i < x.len() && i < y.len() && x[i] == y[i]
        invariant
            i <= x@.len(),
            i <= y@.len(),
            a@ == key_values(x@),
            b@ == key_values(y@),
            forall|k: int| 0 <= k < i ==> a@[k] == b@[k],
            key_before(a@, b@) == key_before(a@.skip(i as int), b@.skip(i as int)),
        decreases x@.len() - i,
    {
        proof {
            let p = a@.skip(i as int);
            let q = b@.skip(i as int);
            assert(p.drop_first() =~= a@.skip(i as int + 1));
            assert(q.drop_first() =~= b@.skip(i as int + 1));
            assert(p[0] == q[0]);
        }
        i = i + 1;
    }
    if i == y.len() {
        if i == x.len() {
            assert(a@ =~= b@);
            return Order::Same;
        }
        return Order::After;
    }
    if i == x.len() {
        return Order::Before;
    }
    proof {
        assert(a@[i as int] == x@[i as int]);
        assert(b@[i as int] == y@[i as int]);
    }
    if x[i] < y[i] {
        Order::Before
    } else {
        Order::After
    }
}

/// The order of two paths.
pub(crate) fn order_paths(a: &SourcePath, b: &SourcePath) -> (r: Order)
    ensures
        r == Order::Before <==> path_before(a@, b@),
        r == Order::Same <==> a@ == b@,
{
    let mut i: usize = 0;
    proof {
        assert(a@.skip(0) =~= a@);
        assert(b@.skip(0) =~= b@);
    }
    while i < a.components.len() && i < b.components.len()
        invariant
            i <= a@.len(),
            i <= b@.len(),
            a@.len() == a.components@.len(),
            b@.len() == b.components@.len(),
            forall|k: int| 0 <= k < i ==> a@[k] == b@[k],
            path_before(a@, b@) == path_before(a@.skip(i as int), b@.skip(i as int)),
        decreases a@.len() - i,
    {
        let ghost x = a@.skip(i as int);
        let ghost y = b@.skip(i as int);
        proof {
            assert(x.drop_first() =~= a@.skip(i as int + 1));
            assert(y.drop_first() =~= b@.skip(i as int + 1));
            assert(x[0] == a.components@[i as int]@);
            assert(y[0] == b.components@[i as int]@);
            lemma_key_order_same(x[0]);
        }
        match order_components(&a.components[i], &b.components[i]) {
            Order::Before => {
                assert(a@[i as int] != b@[i as int]) by {
                    lemma_key_order_same(a@[i as int]);
                }
                return Order::Before;
            },
            Order::After => {
                assert(a@[i as int] != b@[i as int]);
                return Order::After;
            },
            Order::Same => {},
        }
        i = i + 1;
    }
    if i == b.components.len() {
        if i == a.components.len() {
            assert(a@ =~= b@);
            return Order::Same;
        }
        return Order::After;
    }
    Order::Before
}

/// A name with the same bytes.
fn copied_bytes(bytes: &Vec<u8>) -> (r: Vec<u8>)
    ensures
        r@ == bytes@,
{
    let mut copy: Vec<u8> = Vec::new();
    let mut i: usize = 0;
    while i < bytes.len()
        invariant
            i <= bytes@.len(),
            copy@ == bytes@.take(i as int),
        decreases bytes@.len() - i,
    {
        copy.push(bytes[i]);
        assert(copy@ =~= bytes@.take(i as int + 1));
        i = i + 1;
    }
    assert(bytes@.take(i as int) =~= bytes@);
    copy
}

/// The same prefix.
fn copied_prefix(prefix: &PathPrefix) -> (r: PathPrefix)
    ensures
        r@ == prefix@,
{
    match prefix {
        PathPrefix::Verbatim(name) => PathPrefix::Verbatim(copied_bytes(name)),
        PathPrefix::VerbatimUnc(server, share) => PathPrefix::VerbatimUnc(
            copied_bytes(server),
            copied_bytes(share),
        ),
        PathPrefix::VerbatimDisk(letter) => PathPrefix::VerbatimDisk(*letter),
        PathPrefix::DeviceNs(name) => PathPrefix::DeviceNs(copied_bytes(name)),
        PathPrefix::Unc(server, share) => PathPrefix::Unc(copied_bytes(server), copied_bytes(share)),
        PathPrefix::Disk(letter) => PathPrefix::Disk(*letter),
    }
}

/// A path with the same components.
pub(crate) fn copied_path(path: &SourcePath) -> (r: SourcePath)
    ensures
        r@ == path@,
{
    let mut components: Vec<Component> = Vec::new();
    let mut i: usize = 0;
    while i < path.components.len()
        invariant
            i <= path.components@.len(),
            components@.len() == i,
            forall|k: int| 0 <= k < i ==> (#[trigger] components@[k])@ == path.components@[k]@,
        decreases path.components@.len() - i,
    {
        let component = match &path.components[i] {
            Component::Prefix(prefix) => Component::Prefix(copied_prefix(prefix)),
            Component::RootDir => Component::RootDir,
            Component::CurDir => Component::CurDir,
            Component::ParentDir => Component::ParentDir,
            Component::Normal(name) => Component::Normal(copied_bytes(name)),
        };
        components.push(component);
        i = i + 1;
    }
    let copy = SourcePath { components };
    assert(copy@ =~= path@);
    copy
}

/// Puts a path into a sorted list, unless it is there already.
fn insert_path(list: &mut Vec<SourcePath>, path: SourcePath)
    requires
        strictly_sorted(path_keys(old(list)@)),
    ensures
        strictly_sorted(path_keys(final(list)@)),
        forall|key: Seq<ComponentKey>| #[trigger]
            path_keys(final(list)@).contains(key) <==> path_keys(old(list)@).contains(key) || key
                == path@,
{
    let ghost before = path_keys(list@);
    let mut at: usize = list.len();
    while at > 0
        invariant
            at <= list@.len(),
            list@ == old(list)@,
            before == path_keys(list@),
            strictly_sorted(before),
            forall|k: int| at <= k < list@.len() ==> path_before(path@, #[trigger] before[k]),
        ensures
            at > 0 ==> path_before(before[at - 1], path@),
        decreases at,
    {
        assert(before[at - 1] == list@[at - 1]@);
        match order_paths(&path, &list[at - 1]) {
            Order::Before => {
                at = at - 1;
            },
            Order::Same => {
                assert(before[at - 1] == path@);
                return;
            },
            Order::After => {
                proof {
                    lemma_path_order(path@, before[at - 1], path@);
                }
                break;
            },
        }
    }
    let ghost key = path@;
    list.insert(at, path);
    proof {
        let now = path_keys(list@);
        assert(now =~= before.insert(at as int, key));
        assert forall|i: int, j: int| 0 <= i < j < now.len() implies path_before(
            now[i],
            now[j],
        ) by {
            if j == at && i < at - 1 {
                lemma_path_order(before[i], before[at - 1], key);
            }
        }
        assert forall|other: Seq<ComponentKey>| now.contains(other) <==> before.contains(other)
            || other == key by {
            if now.contains(other) {
                let i = choose|i: int| 0 <= i < now.len() && now[i] == other;
                if i < at {
                    assert(before[i] == other);
                } else if i > at {
                    assert(before[i - 1] == other);
                }
            }
            if before.contains(other) {
                let i = choose|i: int| 0 <= i < before.len() && before[i] == other;
                if i < at {
                    assert(now[i] == other);
                } else {
                    assert(now[i + 1] == other);
                }
            }
            assert(now[at as int] == key);
        }
    }
}

/// Adds the Rust files of `tree` to the sorted list `files`.
fn collect_rust_files(tree: &FileTree, files: &mut Vec<SourcePath>)
    requires
        strictly_sorted(path_keys(old(files)@)),
    ensures
        strictly_sorted(path_keys(final(files)@)),
        holds_also(path_keys(final(files)@), path_keys(old(files)@), found(*tree)),
    decreases tree,
{
    match &tree.entry {
        Entry::File => {
            let extension: [u8; 2] = [114, 115];
            assert(extension@ =~= rust_extension());
            if path_has_extension(&tree.path, extension.as_slice()) {
                insert_path(files, copied_path(&tree.path));
                assert forall|key: Seq<ComponentKey>| found(*tree).contains(key) <==> key
                    == tree.path@ by {
                    assert(found(*tree)[0] == tree.path@);
                }
            }
        },
        Entry::Directory(children) => {
            if !should_skip_dir(&tree.path) {
                collect_all(children, files);
            }
        },
        Entry::Other => {},
    }
}

/// Adds the Rust files of all `trees` to the sorted list `files`.
fn collect_all(trees: &Vec<FileTree>, files: &mut Vec<SourcePath>)
    requires
        strictly_sorted(path_keys(old(files)@)),
    ensures
        strictly_sorted(path_keys(final(files)@)),
        holds_also(path_keys(final(files)@), path_keys(old(files)@), found_all(trees@)),
    decreases trees,
{
    let mut i: usize = 0;
    let ghost before = path_keys(files@);
    assert(found_all(trees@.take(0)) =~= Seq::<Seq<ComponentKey>>::empty());
    while i < trees.len()
        invariant
            i <= trees@.len(),
            before == path_keys(old(files)@),
            strictly_sorted(path_keys(files@)),
            holds_also(path_keys(files@), before, found_all(trees@.take(i as int))),
        decreases trees@.len() - i,
    {
        let ghost so_far = path_keys(files@);
        let ghost done = trees@.take(i as int + 1);
        collect_rust_files(&trees[i], files);
        proof {
            assert(done.drop_last() =~= trees@.take(i as int));
            assert(done.last() == trees@[i as int]);
            let (front, back) = (found_all(done.drop_last()), found(done.last()));
            assert(found_all(done) == front + back);
            assert forall|key: Seq<ComponentKey>| #[trigger]
                path_keys(files@).contains(key) <==> before.contains(key) || (front
                + back).contains(key) by {
                lemma_contains_concat(front, back);
                assert(so_far.contains(key) <==> before.contains(key) || front.contains(key));
            }
        }
        i = i + 1;
    }
    assert(trees@.take(i as int) =~= trees@);
}

/// Whether `list` holds exactly what `before` and `more` hold.
pub open spec fn holds_also(
    list: Seq<Seq<ComponentKey>>,
    before: Seq<Seq<ComponentKey>>,
    more: Seq<Seq<ComponentKey>>,
) -> bool {
    forall|key: Seq<ComponentKey>| #[trigger]
        list.contains(key) <==> before.contains(key) || more.contains(key)
}

proof fn lemma_contains_concat(a: Seq<Seq<ComponentKey>>, b: Seq<Seq<ComponentKey>>)
    ensures
        forall|key: Seq<ComponentKey>|
            #![trigger (a + b).contains(key)]
            (a + b).contains(key) <==> a.contains(key) || b.contains(key),
{
    assert forall|key: Seq<ComponentKey>| #![trigger (a + b).contains(key)]
        (a + b).contains(key) <==> a.contains(key) || b.contains(key) by {
        let all = a + b;
        if all.contains(key) {
            let i = choose|i: int| 0 <= i < all.len() && all[i] == key;
            if i < a.len() {
                assert(a[i] == key);
            } else {
                assert(b[i - a.len()] == key);
            }
        }
        if a.contains(key) {
            let i = choose|i: int| 0 <= i < a.len() && a[i] == key;
            assert(all[i] == key);
        }
        if b.contains(key) {
            let i = choose|i: int| 0 <= i < b.len() && b[i] == key;
            assert(all[a.len() + i] == key);
        }
    }
}

/// The Rust files of `trees`: sorted, and each of them once.
pub fn rust_files(trees: &Vec<FileTree>) -> (r: Vec<SourcePath>)
    ensures
        strictly_sorted(path_keys(r@)),
        forall|key: Seq<ComponentKey>|
            path_keys(r@).contains(key) <==> found_all(trees@).contains(key),
        forall|key: Seq<ComponentKey>| #[trigger]
            path_keys(r@).contains(key) <==> exists|chain: Seq<int>|
                #[trigger]
                leads_to(trees@, chain, key),
{
    let mut files: Vec<SourcePath> = Vec::new();
    collect_all(trees, &mut files);
    proof {
        assert forall|key: Seq<ComponentKey>| #[trigger]
            path_keys(files@).contains(key) <==> exists|chain: Seq<int>|
                #[trigger]
                leads_to(trees@, chain, key) by {
            lemma_files_are_those_reached(trees@, key);
        }
    }
    files
}

/// Whether the steps of `chain` lead from one of `trees` to a file with the extension of Rust files
/// and the path `key`: the first step picks a tree, each further one a child of the directory that
/// was reached, and no directory on the way is skipped.
pub open spec fn leads_to(trees: Seq<FileTree>, chain: Seq<int>, key: Seq<ComponentKey>) -> bool
    decreases chain.len(),
{
    &&& chain.len() > 0
    &&& 0 <= chain[0] < trees.len()
    &&& if chain.len() == 1 {
        &&& trees[chain[0]].entry is File
        &&& trees[chain[0]].path@ == key
        &&& has_extension(trees[chain[0]].path.name(), seq![114u8, 115u8])
    } else {
        &&& trees[chain[0]].entry is Directory
        &&& !skipped(trees[chain[0]].path.name())
        &&& leads_to(trees[chain[0]].entry->Directory_0@, chain.drop_first(), key)
    }
}

proof fn lemma_found_has_chain(tree: FileTree, key: Seq<ComponentKey>) -> (chain: Seq<int>)
    requires
        found(tree).contains(key),
    ensures
        leads_to(seq![tree], chain, key),
        chain[0] == 0,
    decreases tree,
{
    let i = choose|i: int| 0 <= i < found(tree).len() && found(tree)[i] == key;
    match tree.entry {
        Entry::File => {
            assert(rust_extension() =~= seq![114u8, 115u8]);
            seq![0int]
        },
        Entry::Directory(children) => {
            let below = lemma_found_all_has_chain(children@, key);
            let chain = seq![0int] + below;
            assert(chain.drop_first() =~= below);
            chain
        },
        Entry::Other => seq![0int],
    }
}

proof fn lemma_found_all_has_chain(trees: Seq<FileTree>, key: Seq<ComponentKey>) -> (chain: Seq<int>)
    requires
        found_all(trees).contains(key),
    ensures
        leads_to(trees, chain, key),
    decreases trees,
{
    let front = trees.drop_last();
    lemma_contains_concat(found_all(front), found(trees.last()));
    if found_all(front).contains(key) {
        let chain = lemma_found_all_has_chain(front, key);
        lemma_chain_in_more(front, trees, chain, key, 0);
        assert(chain.update(0, chain[0]) =~= chain);
        chain
    } else {
        let chain = lemma_found_has_chain(trees.last(), key);
        let one = seq![trees.last()];
        let last = trees.len() - 1;
        lemma_chain_in_more(one, trees, chain, key, last);
        chain.update(0, last)
    }
}

/// A chain from one of some trees is a chain from the same tree among others.
proof fn lemma_chain_in_more(
    trees: Seq<FileTree>,
    more: Seq<FileTree>,
    chain: Seq<int>,
    key: Seq<ComponentKey>,
    shift: int,
)
    requires
        leads_to(trees, chain, key),
        0 <= chain[0] + shift < more.len(),
        more[chain[0] + shift] == trees[chain[0]],
    ensures
        leads_to(more, chain.update(0, chain[0] + shift), key),
{
    let other = chain.update(0, chain[0] + shift);
    assert(other.drop_first() =~= chain.drop_first());
}

proof fn lemma_chain_is_found(trees: Seq<FileTree>, chain: Seq<int>, key: Seq<ComponentKey>)
    requires
        leads_to(trees, chain, key),
    ensures
        found_all(trees).contains(key),
    decreases chain.len(),
{
    let tree = trees[chain[0]];
    if chain.len() == 1 {
        assert(rust_extension() =~= seq![114u8, 115u8]);
        assert(found(tree)[0] == key);
    } else {
        lemma_chain_is_found(tree.entry->Directory_0@, chain.drop_first(), key);
    }
    assert(found(tree).contains(key));
    lemma_found_in_all(trees, chain[0], key);
}

proof fn lemma_found_in_all(trees: Seq<FileTree>, at: int, key: Seq<ComponentKey>)
    requires
        0 <= at < trees.len(),
        found(trees[at]).contains(key),
    ensures
        found_all(trees).contains(key),
    decreases trees.len(),
{
    let front = trees.drop_last();
    lemma_contains_concat(found_all(front), found(trees.last()));
    if at < front.len() {
        assert(front[at] == trees[at]);
        lemma_found_in_all(front, at, key);
    }
}

/// A path is among the Rust files of some trees exactly where a chain of steps leads to a file with
/// that path, at whatever depth and behind however many others.
pub proof fn lemma_files_are_those_reached(trees: Seq<FileTree>, key: Seq<ComponentKey>)
    ensures
        found_all(trees).contains(key) <==> exists|chain: Seq<int>|
            #[trigger]
            leads_to(trees, chain, key),
{
    if found_all(trees).contains(key) {
        let chain = lemma_found_all_has_chain(trees, key);
        assert(leads_to(trees, chain, key));
    }
    if exists|chain: Seq<int>| #[trigger] leads_to(trees, chain, key) {
        let chain = choose|chain: Seq<int>| #[trigger] leads_to(trees, chain, key);
        lemma_chain_is_found(trees, chain, key);
    }
}

/// What is found in trees side by side is what is found in each. What is found in a directory is what
/// is found in its children, wherever the directory lies, unless it is skipped; a file is found
/// exactly where it has the extension of Rust files, and nothing is found in anything else.
pub proof fn lemma_every_tree_is_walked(
    trees: Seq<FileTree>,
    more: Seq<FileTree>,
    tree: FileTree,
)
    ensures
        found_all(trees + more) == found_all(trees) + found_all(more),
        found_all(Seq::empty()).len() == 0,
        tree.entry matches Entry::Directory(children) ==> found_all(seq![tree]) == if skipped(
            tree.path.name(),
        ) {
            Seq::empty()
        } else {
            found_all(children@)
        },
        tree.entry is File ==> found_all(seq![tree]) == if has_extension(
            tree.path.name(),
            seq![114u8, 115u8],
        ) {
            seq![tree.path@]
        } else {
            Seq::empty()
        },
        tree.entry is Other ==> found_all(seq![tree]).len() == 0,
{
    lemma_found_side_by_side(trees, more);
    assert(rust_extension() =~= seq![114u8, 115u8]);
    let one = seq![tree];
    assert(one.drop_last() =~= Seq::<FileTree>::empty());
    assert(found_all(Seq::<FileTree>::empty()) =~= Seq::<Seq<ComponentKey>>::empty());
    assert(found_all(one) =~= found(tree));
}

proof fn lemma_found_side_by_side(trees: Seq<FileTree>, more: Seq<FileTree>)
    ensures
        found_all(trees + more) == found_all(trees) + found_all(more),
    decreases more.len(),
{
    let all = trees + more;
    if more.len() == 0 {
        assert(all =~= trees);
        assert(found_all(all) =~= found_all(trees) + found_all(more));
    } else {
        lemma_found_side_by_side(trees, more.drop_last());
        assert(all.drop_last() =~= trees + more.drop_last());
        assert(found_all(all) =~= found_all(trees) + found_all(more));
    }
}

/// A directory is skipped exactly where its name is a text that begins with a dot, or is `target` or
/// `node_modules`; a path without a name is never skipped.
pub proof fn lemma_skipped_names(name: Option<Seq<u8>>)
    ensures
        skipped(name) <==> name is Some && exists|text: Seq<char>|
            name->0 == #[trigger] encode_utf8(text) && ((text.len() > 0 && text[0] == '.') || text
                == seq!['t', 'a', 'r', 'g', 'e', 't'] || text == seq![
                'n',
                'o',
                'd',
                'e',
                '_',
                'm',
                'o',
                'd',
                'u',
                'l',
                'e',
                's',
            ]),
{
    let target = seq!['t', 'a', 'r', 'g', 'e', 't'];
    let modules = seq!['n', 'o', 'd', 'e', '_', 'm', 'o', 'd', 'u', 'l', 'e', 's'];
    is_ascii_chars_encode_utf8(target);
    is_ascii_chars_encode_utf8(modules);
    assert(encode_utf8(target) =~= target_name());
    assert(encode_utf8(modules) =~= modules_name());
    if let Some(bytes) = name {
        if valid_utf8(bytes) {
            let text = decode_utf8(bytes);
            decode_utf8_encode_utf8(bytes);
            lemma_first_dot(text);
            if bytes == target_name() {
                encode_utf8_decode_utf8(target);
            }
            if bytes == modules_name() {
                encode_utf8_decode_utf8(modules);
            }
            assert(bytes == encode_utf8(text));
        }
        if exists|text: Seq<char>|
            bytes == #[trigger] encode_utf8(text) && ((text.len() > 0 && text[0] == '.') || text
                == target || text == modules) {
            let text = choose|text: Seq<char>|
                bytes == #[trigger] encode_utf8(text) && ((text.len() > 0 && text[0] == '.')
                    || text == target || text == modules);
            encode_utf8_valid_utf8(text);
            lemma_first_dot(text);
        }
    }
}

/// The first byte of a character beyond ASCII is beyond ASCII.
proof fn lemma_leading_byte(n: u32)
    requires
        n >= 128,
    ensures
        encode_scalar(n).len() > 0,
        encode_scalar(n)[0] >= 128,
{
    let two = ((n >> 6) & 0x1F) as u8;
    let three = ((n >> 12) & 0x0F) as u8;
    let four = ((n >> 18) & 0x7) as u8;
    assert(0xC0u8 | two >= 128u8) by (bit_vector);
    assert(0xE0u8 | three >= 128u8) by (bit_vector);
    assert(0xF0u8 | four >= 128u8) by (bit_vector);
}

proof fn lemma_first_dot(text: Seq<char>)
    ensures
        text.len() > 0 && text[0] == '.' <==> encode_utf8(text).len() > 0 && encode_utf8(text)[0]
            == 46,
{
    if text.len() > 0 {
        let n = text[0] as u32;
        assert(encode_utf8(text) == encode_scalar(n) + encode_utf8(text.drop_first()));
        if n < 128 {
            assert((n & 0x7F) as u8 == 46u8 <==> n == 46) by (bit_vector)
                requires
                    n < 128,
            ;
            assert(encode_scalar(n)[0] == (n & 0x7F) as u8);
            assert('.' as u32 == 46);
            char_u32_cast(text[0], n);
            char_u32_cast('.', 46u32);
            assert(text[0] == '.' <==> n == 46);
            assert(encode_utf8(text)[0] == encode_scalar(n)[0]);
        } else {
            let one = encode_scalar(n);
            assert(one.len() > 0 && one[0] >= 128) by {
                lemma_leading_byte(n);
            }
            assert(encode_utf8(text)[0] == one[0]);
        }
    } else {
        assert(encode_utf8(text) =~= Seq::<u8>::empty());
    }
}

/// The part behind the last dot: a name has an extension exactly where it is something, a dot, and
/// the extension, which holds no dot.
pub proof fn lemma_extension_is_behind_the_last_dot(name: Seq<u8>, extension: Seq<u8>)
    ensures
        has_extension(Some(name), extension) <==> !extension.contains(46) && exists|stem: Seq<u8>|
            stem.len() > 0 && name == #[trigger] (stem + seq![46u8] + extension),
        !has_extension(None, extension),
{
    let cut = name.len() - extension.len() - 1;
    if has_extension(Some(name), extension) {
        let stem = name.take(cut);
        assert(name.skip(cut + 1) == extension);
        assert(name =~= stem + seq![46u8] + extension) by {
            assert forall|i: int| cut + 1 <= i < name.len() implies name[i] == extension[i - cut
                - 1] by {
                assert(name.skip(cut + 1)[i - cut - 1] == name[i]);
            }
        }
    }
    if exists|stem: Seq<u8>| stem.len() > 0 && name == #[trigger] (stem + seq![46u8] + extension) {
        let stem = choose|stem: Seq<u8>|
            stem.len() > 0 && name == #[trigger] (stem + seq![46u8] + extension);
        assert(name.skip(cut + 1) =~= extension);
    }
}

/// A skipped directory gives no files, whatever lies in it.
pub proof fn lemma_skipped_directory_is_ignored(tree: FileTree)
    requires
        tree.entry is Directory,
        skipped(tree.path.name()),
    ensures
        found(tree) == Seq::<Seq<ComponentKey>>::empty(),
{
}

/// A sorted list without repetition is determined by what it holds, so the order in which the
/// trees are given does not matter.
pub proof fn lemma_sorted_files_are_unique(
    a: Seq<Seq<ComponentKey>>,
    b: Seq<Seq<ComponentKey>>,
)
    requires
        strictly_sorted(a),
        strictly_sorted(b),
        forall|key: Seq<ComponentKey>| a.contains(key) <==> b.contains(key),
    ensures
        a == b,
    decreases a.len(),
{
    if a.len() == 0 {
        if b.len() > 0 {
            assert(b.contains(b[0]));
        }
        assert(a =~= b);
    } else {
        assert(a.contains(a.last()));
        let k = choose|k: int| 0 <= k < b.len() && b[k] == a.last();
        assert(b.contains(b.last()));
        let m = choose|m: int| 0 <= m < a.len() && a[m] == b.last();
        if m < a.len() - 1 {
            assert(path_before(a[m], a.last()));
            if k < b.len() - 1 {
                assert(path_before(b[k], b.last()));
                lemma_path_order(a.last(), b.last(), a.last());
            } else {
                lemma_path_order(a.last(), a.last(), a.last());
            }
        }
        let x = a.drop_last();
        let y = b.drop_last();
        assert forall|key: Seq<ComponentKey>| x.contains(key) <==> y.contains(key) by {
            lemma_path_order(a.last(), a.last(), a.last());
            if x.contains(key) {
                let i = choose|i: int| 0 <= i < x.len() && x[i] == key;
                assert(a[i] == key);
                assert(a.contains(key));
                let j = choose|j: int| 0 <= j < b.len() && b[j] == key;
                assert(path_before(a[i], a.last()));
                assert(j < b.len() - 1);
                assert(y[j] == key);
            }
            if y.contains(key) {
                let i = choose|i: int| 0 <= i < y.len() && y[i] == key;
                assert(b[i] == key);
                assert(b.contains(key));
                let j = choose|j: int| 0 <= j < a.len() && a[j] == key;
                assert(path_before(b[i], b.last()));
                assert(j < a.len() - 1);
                assert(x[j] == key);
            }
        }
        lemma_sorted_files_are_unique(x, y);
        assert(a =~= x.push(a.last()));
        assert(b =~= y.push(b.last()));
    }
}

} // verus!

use vstd::prelude::*;
use vstd::string::*;
use vstd::utf8::{decode_utf8, valid_utf8};
use crate::bytes::{
    bytes_eq, bytes_lt, first_index, lemma_append, lemma_first_index, lemma_first_index_is,
    lemma_lex_asymmetric, lemma_lex_total, lemma_lex_transitive, lemma_skip_prefix, lex_lt,
};
use crate::cursor::Cursor;
use crate::error::Error;
use crate::object::{store_bytes, stored_encoding, ObjectType};
use crate::decimal::{decimal_value, is_decimal, parse_decimal};
use crate::oid::{hex_chars, sha1_digest, Oid};
use crate::text::{append_padded_decimal, padded_decimal, utf8};

verus! {

/// The bytes of a mode.
#[derive(Debug, Clone)]
pub struct Mode(pub Vec<u8>);

/// The bytes of one path segment.
#[derive(Debug, Clone, PartialEq, Eq, PartialOrd, Ord)]
pub struct Name(pub Vec<u8>);

/// What an entry points to, as far as the first byte of its mode tells. This
/// is only an approximation of what a mode means, and only serves listings:
/// a mode that starts with `1` (a regular or executable file, or a symbolic
/// link) counts as a blob, every other mode as a tree.
#[derive(Debug, Clone, Copy, PartialEq, Eq, Structural)]
pub enum EntryKind {
    Tree,
    Blob,
}

/// An entry of a tree: a mode and the identifier of a blob or of another
/// tree.
#[derive(Debug, Clone)]
pub struct TreeEntry {
    oid: Oid,
    mode: Mode,
}

/// A directory snapshot: entries under their names, each name once, kept in
/// the ascending byte-wise order of the names. Its view is the mapping from
/// each name to its entry.
#[derive(Debug)]
pub struct Tree {
    entries: Vec<(Name, TreeEntry)>,
}

/// What a [`TreeEntry`] holds, as plain values.
pub ghost struct TreeEntryView {
    pub mode: Seq<u8>,
    pub oid: Seq<u8>,
}

/// A name with the entry that a tree holds under it.
pub ghost struct TreeItem {
    pub name: Seq<u8>,
    pub entry: TreeEntryView,
}

impl View for TreeEntry {
    type V = TreeEntryView;

    closed spec fn view(&self) -> TreeEntryView {
        TreeEntryView { mode: self.mode.0@, oid: self.oid@ }
    }
}

/// The item that a stored pair stands for: the bytes of its name, and the
/// view of its entry.
pub open spec fn item_of(pair: (Name, TreeEntry)) -> TreeItem {
    TreeItem { name: pair.0.0@, entry: pair.1@ }
}

impl View for Tree {
    type V = Map<Seq<u8>, TreeEntryView>;

    closed spec fn view(&self) -> Map<Seq<u8>, TreeEntryView> {
        item_map(self.items())
    }
}

/// The mapping that results from putting `items` into an empty tree one
/// after the other: where a name occurs twice, the later item stays.
pub open spec fn item_map(items: Seq<TreeItem>) -> Map<Seq<u8>, TreeEntryView>
    decreases items.len(),
{
    if items.len() == 0 {
        Map::empty()
    } else {
        item_map(items.drop_last()).insert(items.last().name, items.last().entry)
    }
}

/// Whether the names of `items` strictly ascend in byte-wise order.
pub open spec fn ascending(items: Seq<TreeItem>) -> bool {
    forall|i: int, j: int|
        0 <= i < j < items.len() ==> lex_lt((#[trigger] items[i]).name, (#[trigger] items[j]).name)
}

/// Whether one of `items` has the name `name`.
pub open spec fn has_name(items: Seq<TreeItem>, name: Seq<u8>) -> bool {
    exists|i: int| 0 <= i < items.len() && (#[trigger] items[i]).name == name
}

/// The entries of the mapping `m` in the ascending order of their names.
pub open spec fn sorted_items(m: Map<Seq<u8>, TreeEntryView>) -> Seq<TreeItem> {
    choose|items: Seq<TreeItem>| ascending(items) && item_map(items) == m
}

/// The bytes of one entry: the mode, a space, the name, a zero byte, and the
/// 20 raw bytes of the identifier.
pub open spec fn item_encoding(item: TreeItem) -> Seq<u8> {
    item.entry.mode + seq![32u8] + item.name + seq![0u8] + item.entry.oid
}

/// The bytes of `items`, in their order.
pub open spec fn items_encoding(items: Seq<TreeItem>) -> Seq<u8>
    decreases items.len(),
{
    if items.len() == 0 {
        Seq::empty()
    } else {
        item_encoding(items[0]) + items_encoding(items.skip(1))
    }
}

/// The canonical encoding of a tree with the mapping `m`: its entries, in the
/// ascending byte-wise order of their names.
pub open spec fn tree_encoding(m: Map<Seq<u8>, TreeEntryView>) -> Seq<u8> {
    items_encoding(sorted_items(m))
}

/// The number of bytes of the entry at the start of `s`: through the first
/// space, through the first zero byte after it, and 20 more.
pub open spec fn item_len(s: Seq<u8>) -> int {
    let mode_len = first_index(s, 32);
    mode_len + 1 + first_index(s.skip(mode_len + 1), 0) + 1 + 20
}

/// Whether `s` starts with a whole entry: there is a space, a zero byte
/// after it, and 20 bytes after that.
pub open spec fn item_fits(s: Seq<u8>) -> bool {
    let mode_len = first_index(s, 32);
    &&& mode_len < s.len()
    &&& first_index(s.skip(mode_len + 1), 0) < s.len() - (mode_len + 1)
    &&& item_len(s) <= s.len()
}

/// The entry at the start of `s`.
pub open spec fn first_item(s: Seq<u8>) -> TreeItem
    recommends
        item_fits(s),
{
    let mode_len = first_index(s, 32);
    TreeItem {
        name: s.subrange(mode_len + 1, item_len(s) - 21),
        entry: TreeEntryView {
            mode: s.take(mode_len),
            oid: s.subrange(item_len(s) - 20, item_len(s)),
        },
    }
}

/// The entries that `s` spells, in their order: `s` must be whole entries
/// from its first byte to its last.
pub open spec fn parse_items(s: Seq<u8>) -> Result<Seq<TreeItem>, Error>
    decreases s.len(),
    via parse_items_decreases
{
    if s.len() == 0 {
        Ok(Seq::empty())
    } else if !item_fits(s) {
        Err(Error::FormatError)
    } else {
        match parse_items(s.skip(item_len(s))) {
            Ok(rest) => Ok(seq![first_item(s)] + rest),
            Err(e) => Err(e),
        }
    }
}

#[via_fn]
proof fn parse_items_decreases(s: Seq<u8>) {
    lemma_first_index(s, 32);
    lemma_first_index(s.skip(first_index(s, 32) + 1), 0);
}

/// The mapping of the tree that `s` encodes. Where `s` holds a name twice,
/// the later entry stays.
pub open spec fn tree_decoding(s: Seq<u8>) -> Result<Map<Seq<u8>, TreeEntryView>, Error> {
    match parse_items(s) {
        Ok(items) => Ok(item_map(items)),
        Err(e) => Err(e),
    }
}

/// `items` before what `r` holds, where it holds anything.
pub open spec fn items_before(items: Seq<TreeItem>, r: Result<Seq<TreeItem>, Error>) -> Result<
    Seq<TreeItem>,
    Error,
> {
    match r {
        Ok(rest) => Ok(items + rest),
        Err(e) => Err(e),
    }
}

/// What a mode says of the kind of an entry: a blob where its first byte is
/// `1`, a tree otherwise.
pub open spec fn entry_kind(mode: Seq<u8>) -> EntryKind {
    if mode.len() > 0 && mode[0] == 49 {
        EntryKind::Blob
    } else {
        EntryKind::Tree
    }
}

/// The word for a kind in a listing.
pub open spec fn kind_text(kind: EntryKind) -> Seq<char> {
    match kind {
        EntryKind::Tree => seq!['t', 'r', 'e', 'e'],
        EntryKind::Blob => seq!['b', 'l', 'o', 'b'],
    }
}

/// The text of a mode in a listing: the number that the mode spells, in six
/// digits or more. A mode that spells no number that fits in 64 bits has no
/// text.
pub open spec fn mode_text(mode: Seq<u8>) -> Option<Seq<char>> {
    if is_decimal(mode) && decimal_value(mode) <= u64::MAX {
        Some(padded_decimal(decimal_value(mode), 6))
    } else {
        None
    }
}

/// The line of an entry in a listing: the mode, the kind, the identifier in
/// hexadecimal, four spaces, and the name. An entry whose mode has no text or
/// whose name is not UTF-8 has no line.
pub open spec fn item_text(item: TreeItem) -> Option<Seq<char>> {
    if mode_text(item.entry.mode) is Some && valid_utf8(item.name) {
        Some(
            mode_text(item.entry.mode)->Some_0 + seq![' '] + kind_text(
                entry_kind(item.entry.mode),
            ) + seq![' '] + hex_chars(item.entry.oid) + seq![' ', ' ', ' ', ' '] + decode_utf8(
                item.name,
            ) + seq!['\n'],
        )
    } else {
        None
    }
}

/// The listing of `items`: their lines in their order, where each of them
/// has a line.
pub open spec fn items_text(items: Seq<TreeItem>) -> Option<Seq<char>>
    decreases items.len(),
{
    if items.len() == 0 {
        Some(Seq::empty())
    } else if items_text(items.drop_last()) is Some && item_text(items.last()) is Some {
        Some(items_text(items.drop_last())->Some_0 + item_text(items.last())->Some_0)
    } else {
        None
    }
}

impl EntryKind {
    /// The word for the kind in a listing: `tree` or `blob`.
    pub fn to_text(&self) -> (text: String)
        ensures
            text@ == kind_text(*self),
    {
        proof {
            reveal_strlit("tree");
            reveal_strlit("blob");
        }
        match self {
            EntryKind::Tree => {
                assert("tree"@ =~= kind_text(EntryKind::Tree));
                String::from_str("tree")
            },
            EntryKind::Blob => {
                assert("blob"@ =~= kind_text(EntryKind::Blob));
                String::from_str("blob")
            },
        }
    }
}

impl Name {
    /// The name as text. A name that is not UTF-8 is a `FormatError`.
    pub fn to_text(&self) -> (r: Result<String, Error>)
        ensures
            r is Ok <==> valid_utf8(self.0@),
            r matches Ok(text) ==> text@ == decode_utf8(self.0@),
            r matches Err(e) ==> e == Error::FormatError,
    {
        match utf8(self.0.as_slice()) {
            Ok(text) => Ok(String::from_str(text)),
            Err(e) => Err(e),
        }
    }
}

impl Mode {
    /// The mode as a listing shows it: the number that it spells, padded
    /// with zeros to six digits. A mode that spells no number is a
    /// `FormatError`.
    pub fn to_text(&self) -> (r: Result<String, Error>)
        ensures
            match r {
                Ok(text) => mode_text(self.0@) == Some(text@),
                Err(e) => e == Error::FormatError && mode_text(self.0@) is None,
            },
    {
        match parse_decimal(self.0.as_slice()) {
            Some(n) => {
                let mut text = String::new();
                append_padded_decimal(&mut text, n, 6);
                assert(text@ =~= padded_decimal(n as nat, 6));
                Ok(text)
            },
            None => Err(Error::FormatError),
        }
    }
}

impl TreeEntry {
    /// The entry with the given identifier and mode.
    pub fn new(oid: Oid, mode: Mode) -> (entry: TreeEntry)
        ensures
            entry@.oid == oid@,
            entry@.mode == mode.0@,
    {
        Self { oid, mode }
    }

    /// The identifier that the entry points to.
    pub fn oid(&self) -> (oid: Oid)
        ensures
            oid@ == self@.oid,
    {
        self.oid
    }

    /// The mode.
    pub fn mode(&self) -> (mode: &Mode)
        ensures
            mode.0@ == self@.mode,
    {
        &self.mode
    }

    /// What the entry points to, judged by the first byte of the mode alone:
    /// a blob where that byte is `1`, a tree otherwise.
    pub fn kind(&self) -> (kind: EntryKind)
        ensures
            kind == entry_kind(self@.mode),
    {
        if self.mode.0.len() > 0 && self.mode.0[0] == 49u8 {
            EntryKind::Blob
        } else {
            EntryKind::Tree
        }
    }

    /// Appends the line of the entry under `name` to a listing, or fails
    /// with a `FormatError` and appends nothing where the entry has no line.
    fn append_line(&self, name: &Name, out: &mut String) -> (r: Result<(), Error>)
        ensures
            match r {
                Ok(_) => item_text(TreeItem { name: name.0@, entry: self@ }) is Some && final(out)@
                    == old(out)@ + item_text(TreeItem { name: name.0@, entry: self@ })->Some_0,
                Err(e) => e == Error::FormatError && item_text(
                    TreeItem { name: name.0@, entry: self@ },
                ) is None && final(out)@ == old(out)@,
            },
    {
        let mode = match self.mode.to_text() {
            Ok(mode) => mode,
            Err(e) => return Err(e),
        };
        let name_text = match utf8(name.0.as_slice()) {
            Ok(text) => text,
            Err(e) => return Err(e),
        };
        proof {
            reveal_strlit(" ");
            reveal_strlit("    ");
            reveal_strlit("\n");
        }
        let ghost before = out@;
        let kind = self.kind().to_text();
        let hex = self.oid.hex();
        out.append(mode.as_str());
        out.append(" ");
        out.append(kind.as_str());
        out.append(" ");
        out.append(hex.as_str());
        out.append("    ");
        out.append(name_text);
        out.append("\n");
        proof {
            let line = item_text(TreeItem { name: name.0@, entry: self@ })->Some_0;
            assert(" "@ =~= seq![' ']);
            assert("    "@ =~= seq![' ', ' ', ' ', ' ']);
            assert("\n"@ =~= seq!['\n']);
            assert(out@ =~= before + line);
        }
        Ok(())
    }
}

impl Tree {
    /// The entries in their stored order.
    pub closed spec fn items(&self) -> Seq<TreeItem> {
        self.entries@.map_values(|pair: (Name, TreeEntry)| item_of(pair))
    }

    #[verifier::type_invariant]
    spec fn sorted(&self) -> bool {
        ascending(self.items())
    }

    /// Every tree holds finitely many names, and every identifier that it
    /// holds has its 20 bytes.
    pub proof fn lemma_identifiers(&self)
        ensures
            self@.dom().finite(),
            forall|name: Seq<u8>| #[trigger]
                self@.dom().contains(name) ==> self@[name].oid.len() == 20,
    {
        let items = self.items();
        lemma_item_map_names(items);
        lemma_item_map_items(items);
        assert forall|name: Seq<u8>| #[trigger] self@.dom().contains(name) implies self@[name].oid.len()
            == 20 by {
            let item = TreeItem { name, entry: self@[name] };
            assert(items.contains(item));
            let i = choose|i: int| 0 <= i < items.len() && items[i] == item;
            assert(items[i] == item_of(self.entries@[i]));
            self.entries@[i].1.oid.lemma_len();
        }
    }

    /// An empty tree.
    pub fn new() -> (tree: Tree)
        ensures
            tree@ == Map::<Seq<u8>, TreeEntryView>::empty(),
    {
        let tree = Self { entries: Vec::new() };
        assert(tree.items() =~= Seq::<TreeItem>::empty());
        tree
    }

    /// The number of entries.
    pub fn len(&self) -> (n: usize)
        ensures
            n == self@.dom().len(),
            self@.dom().finite(),
    {
        proof {
            use_type_invariant(self);
            lemma_ascending_len(self.items());
        }
        self.entries.len()
    }

    /// The entries with their names, in the ascending order of the names.
    pub fn entries(&self) -> (entries: &Vec<(Name, TreeEntry)>)
        ensures
            entries@.map_values(|pair: (Name, TreeEntry)| item_of(pair)) == sorted_items(self@),
            entries@.len() == self@.dom().len(),
    {
        proof {
            use_type_invariant(self);
            lemma_encoding_of_ascending(self.items());
            lemma_ascending_len(self.items());
        }
        &self.entries
    }

    /// The entry under `name`, if there is one.
    pub fn get(&self, name: &[u8]) -> (r: Option<&TreeEntry>)
        ensures
            match r {
                Some(entry) => self@.dom().contains(name@) && self@[name@] == entry@,
                None => !self@.dom().contains(name@),
            },
    {
        proof {
            use_type_invariant(self);
            lemma_item_map_names(self.items());
            lemma_item_map_values(self.items());
        }
        let mut i: usize = 0;
        while i < self.entries.len()
            invariant
                i <= self.entries@.len(),
                forall|k: int| 0 <= k < i ==> (#[trigger] self.items()[k]).name != name@,
                forall|k: int|
                    0 <= k < self.items().len() ==> item_map(self.items())[(#[trigger] self.items()[k]).name]
                        == self.items()[k].entry,
                forall|n: Seq<u8>| #[trigger]
                    item_map(self.items()).dom().contains(n) <==> has_name(self.items(), n),
            decreases self.entries@.len() - i,
        {
            if bytes_eq(self.entries[i].0.0.as_slice(), name) {
                assert(self.items()[i as int].name == name@);
                assert(has_name(self.items(), name@));
                return Some(&self.entries[i].1);
            }
            i = i + 1;
        }
        assert(!has_name(self.items(), name@));
        None
    }

    /// The listing of the tree: a line for each entry, in the ascending
    /// order of the names. Where an entry has no line, that is a
    /// `FormatError`.
    pub fn to_text(&self) -> (r: Result<String, Error>)
        ensures
            match r {
                Ok(text) => items_text(sorted_items(self@)) == Some(text@),
                Err(e) => e == Error::FormatError && items_text(sorted_items(self@)) is None,
            },
    {
        proof {
            use_type_invariant(self);
            lemma_encoding_of_ascending(self.items());
        }
        let ghost items = self.items();
        let mut out = String::new();
        let mut i: usize = 0;
        assert(items.take(0) =~= Seq::<TreeItem>::empty());
        while i < self.entries.len()
            invariant
                i <= self.entries@.len(),
                items == self.items(),
                items == sorted_items(self@),
                items.len() == self.entries@.len(),
                items_text(items.take(i as int)) == Some(out@),
            decreases self.entries@.len() - i,
        {
            let ghost before = out@;
            let pair = &self.entries[i];
            assert(items[i as int] == item_of(*pair));
            assert(item_of(*pair) == TreeItem { name: pair.0.0@, entry: pair.1@ });
            match pair.1.append_line(&pair.0, &mut out) {
                Ok(_) => {},
                Err(e) => {
                    proof {
                        if items_text(items) is Some {
                            lemma_items_text_each(items, i as int);
                        }
                    }
                    return Err(e);
                },
            }
            proof {
                let next = items.take(i + 1);
                assert(next.drop_last() =~= items.take(i as int));
                assert(next.last() == items[i as int]);
            }
            i = i + 1;
        }
        assert(items.take(i as int) =~= items);
        Ok(out)
    }

    /// The identifier of the tree: the digest of the bytes under which it is
    /// stored.
    pub fn id(&self) -> (oid: Oid)
        ensures
            oid@ == sha1_digest(stored_encoding(ObjectType::Tree, tree_encoding(self@))),
    {
        let payload = self.encode();
        let data = store_bytes(ObjectType::Tree, payload.as_slice());
        Oid::hash(data.as_slice())
    }

    /// Puts `entry` under `name`, in the place of the entry that was there
    /// under that name, if any.
    pub fn append_entry(&mut self, name: Name, entry: TreeEntry)
        ensures
            final(self)@ == old(self)@.insert(name.0@, entry@),
    {
        let mut taken = Tree::new();
        core::mem::swap(self, &mut taken);
        proof {
            use_type_invariant(&taken);
        }
        let ghost items = taken.items();
        let ghost item = TreeItem { name: name.0@, entry: entry@ };
        let Tree { mut entries } = taken;
        let mut i: usize = 0;
        while i < entries.len() && bytes_lt(entries[i].0.0.as_slice(), name.0.as_slice())
            invariant
                i <= entries@.len(),
                items == entries@.map_values(|pair: (Name, TreeEntry)| item_of(pair)),
                item.name == name.0@,
                forall|k: int| 0 <= k < i ==> lex_lt((#[trigger] items[k]).name, item.name),
            decreases entries@.len() - i,
        {
            i = i + 1;
        }
        if i < entries.len() && bytes_eq(entries[i].0.0.as_slice(), name.0.as_slice()) {
            entries[i] = (name, entry);
            proof {
                lemma_replace_item(items, i as int, item);
                assert(entries@.map_values(|pair: (Name, TreeEntry)| item_of(pair)) =~= items.update(
                    i as int,
                    item,
                ));
            }
        } else {
            entries.insert(i, (name, entry));
            proof {
                if i < items.len() {
                    lemma_lex_total(item.name, items[i as int].name);
                }
                lemma_insert_item(items, i as int, item);
                assert(entries@.map_values(|pair: (Name, TreeEntry)| item_of(pair)) =~= items.insert(
                    i as int,
                    item,
                ));
            }
        }
        *self = Tree { entries };
    }

    /// The canonical encoding: for each entry, in the ascending order of the
    /// names, the mode, a space, the name, a zero byte, and the 20 raw bytes
    /// of the identifier.
    pub fn encode(&self) -> (data: Vec<u8>)
        ensures
            data@ == tree_encoding(self@),
            data@ == items_encoding(self.items()),
            sorted_items(self@) == self.items(),
    {
        proof {
            use_type_invariant(self);
            lemma_encoding_of_ascending(self.items());
        }
        let mut data: Vec<u8> = Vec::new();
        let ghost items = self.items();
        let mut i: usize = 0;
        assert(items.take(0) =~= Seq::<TreeItem>::empty());
        while i < self.entries.len()
            invariant
                i <= self.entries@.len(),
                items == self.items(),
                items.len() == self.entries@.len(),
                data@ == items_encoding(items.take(i as int)),
            decreases self.entries@.len() - i,
        {
            let ghost before = data@;
            let ghost item = items[i as int];
            let pair = &self.entries[i];
            assert(item == item_of(*pair));
            data.extend_from_slice(pair.1.mode.0.as_slice());
            data.push(32u8);
            data.extend_from_slice(pair.0.0.as_slice());
            data.push(0u8);
            data.extend_from_slice(pair.1.oid.as_bytes());
            proof {
                assert(data@ =~= before + item_encoding(item));
                lemma_items_encoding_push(items.take(i as int), item);
                assert(items.take(i as int).push(item) =~= items.take(i + 1));
            }
            i = i + 1;
        }
        assert(items.take(i as int) =~= items);
        data
    }

    /// Reads entries until the input is used up: for each the mode up to a
    /// space, the name up to a zero byte, and the 20 raw bytes of the
    /// identifier. Input that ends inside an entry is a `FormatError`.
    pub fn from_reader(reader: &mut Cursor) -> (r: Result<Tree, Error>)
        ensures
            match r {
                Ok(tree) => tree_decoding(old(reader)@) == Ok::<_, Error>(tree@) && final(reader)@
                    == Seq::<u8>::empty(),
                Err(e) => e == Error::FormatError && tree_decoding(old(reader)@) == Err::<
                    Map<Seq<u8>, TreeEntryView>,
                    _,
                >(e),
            },
    {
        let mut tree = Tree::new();
        let ghost all = reader@;
        let ghost mut done: Seq<TreeItem> = Seq::empty();
        proof {
            let r = parse_items(all);
            if r is Ok {
                assert(done + r->Ok_0 =~= r->Ok_0);
            }
        }
        while reader.remaining() > 0
            invariant
                all == old(reader)@,
                parse_items(all) == items_before(done, parse_items(reader@)),
                tree@ == item_map(done),
            decreases reader@.len(),
        {
            let ghost s = reader@;
            proof {
                lemma_first_index(s, 32);
                lemma_first_index(s.skip(first_index(s, 32) + 1), 0);
            }
            let mut mode = reader.read_until(32u8);
            if mode.len() == 0 || mode[mode.len() - 1] != 32u8 {
                return Err(Error::FormatError);
            }
            mode.pop();
            let ghost after_mode = reader@;
            let mut name = reader.read_until(0u8);
            if name.len() == 0 || name[name.len() - 1] != 0u8 {
                return Err(Error::FormatError);
            }
            name.pop();
            let ghost after_name = reader@;
            let oid = match Oid::from_reader(reader) {
                Ok(oid) => oid,
                Err(_) => return Err(Error::FormatError),
            };
            let entry = TreeEntry::new(oid, Mode(mode));
            let name = Name(name);
            proof {
                let m = first_index(s, 32);
                let n = first_index(after_mode, 0);
                assert(after_mode == s.skip(m + 1));
                assert(after_name =~= s.skip(m + n + 2));
                assert(reader@ =~= s.skip(item_len(s)));
                let item = first_item(s);
                assert(mode@ =~= item.entry.mode);
                assert(name.0@ =~= item.name);
                assert(oid@ =~= item.entry.oid);
                assert(item == TreeItem { name: name.0@, entry: entry@ });
                let rest = parse_items(reader@);
                if rest is Ok {
                    assert(done + (seq![item] + rest->Ok_0) =~= done.push(item) + rest->Ok_0);
                }
                assert(done.push(item).drop_last() =~= done);
                done = done.push(item);
            }
            tree.append_entry(name, entry);
        }
        proof {
            assert(done + Seq::<TreeItem>::empty() =~= done);
        }
        Ok(tree)
    }

    /// Decodes the canonical encoding of a tree.
    pub fn decode(data: &[u8]) -> (r: Result<Tree, Error>)
        ensures
            match r {
                Ok(tree) => tree_decoding(data@) == Ok::<_, Error>(tree@),
                Err(e) => e == Error::FormatError && tree_decoding(data@) == Err::<
                    Map<Seq<u8>, TreeEntryView>,
                    _,
                >(e),
            },
    {
        let mut reader = Cursor::new(vstd::slice::slice_to_vec(data));
        Tree::from_reader(&mut reader)
    }
}

/// The names of `items` are the names that the mapping of `items` knows.
pub proof fn lemma_item_map_names(items: Seq<TreeItem>)
    ensures
        item_map(items).dom().finite(),
        forall|name: Seq<u8>| #[trigger] item_map(items).dom().contains(name) <==> has_name(items, name),
    decreases items.len(),
{
    if items.len() > 0 {
        let init = items.drop_last();
        lemma_item_map_names(init);
        assert forall|name: Seq<u8>| #[trigger]
            item_map(items).dom().contains(name) <==> has_name(items, name) by {
            if has_name(items, name) {
                let i = choose|i: int| 0 <= i < items.len() && (#[trigger] items[i]).name == name;
                if i < init.len() {
                    assert(init[i].name == name);
                    assert(has_name(init, name));
                }
            }
            if item_map(items).dom().contains(name) {
                if name == items.last().name {
                    assert(items[items.len() - 1].name == name);
                } else {
                    assert(has_name(init, name));
                    let i = choose|i: int| 0 <= i < init.len() && (#[trigger] init[i]).name == name;
                    assert(items[i].name == name);
                }
            }
        }
    }
}

/// What the mapping of `items` holds under a name is the entry of one of
/// the items with that name.
pub proof fn lemma_item_map_items(items: Seq<TreeItem>)
    ensures
        forall|name: Seq<u8>| #[trigger]
            item_map(items).dom().contains(name) ==> items.contains(
                TreeItem { name, entry: item_map(items)[name] },
            ),
    decreases items.len(),
{
    if items.len() > 0 {
        let init = items.drop_last();
        lemma_item_map_items(init);
        assert forall|name: Seq<u8>| #[trigger] item_map(items).dom().contains(name) implies items.contains(
            TreeItem { name, entry: item_map(items)[name] },
        ) by {
            let item = TreeItem { name, entry: item_map(items)[name] };
            if name == items.last().name {
                assert(items[items.len() - 1] == item);
            } else {
                assert(item_map(init).dom().contains(name));
                assert(item_map(init)[name] == item_map(items)[name]);
                assert(init.contains(item));
                let i = choose|i: int| 0 <= i < init.len() && init[i] == item;
                assert(items[i] == item);
            }
        }
    }
}

/// Where the names ascend, each item is what the mapping holds under its
/// name.
pub proof fn lemma_item_map_values(items: Seq<TreeItem>)
    requires
        ascending(items),
    ensures
        forall|i: int|
            0 <= i < items.len() ==> item_map(items)[(#[trigger] items[i]).name] == items[i].entry,
    decreases items.len(),
{
    if items.len() > 0 {
        let init = items.drop_last();
        assert(ascending(init)) by {
            assert forall|i: int, j: int| 0 <= i < j < init.len() implies lex_lt(
                (#[trigger] init[i]).name,
                (#[trigger] init[j]).name,
            ) by {
                assert(init[i] == items[i] && init[j] == items[j]);
            }
        }
        lemma_item_map_values(init);
        assert forall|i: int| 0 <= i < items.len() implies item_map(items)[(#[trigger] items[i]).name]
            == items[i].entry by {
            if i < init.len() {
                assert(init[i] == items[i]);
                assert(lex_lt(items[i].name, items[items.len() - 1].name));
                lemma_lex_asymmetric(items[i].name, items[i].name);
            }
        }
    }
}

/// An ascending sequence has as many items as its mapping has names.
pub proof fn lemma_ascending_len(items: Seq<TreeItem>)
    requires
        ascending(items),
    ensures
        item_map(items).dom().finite(),
        item_map(items).dom().len() == items.len(),
    decreases items.len(),
{
    lemma_item_map_names(items);
    if items.len() > 0 {
        let init = items.drop_last();
        assert(ascending(init)) by {
            assert forall|i: int, j: int| 0 <= i < j < init.len() implies lex_lt(
                (#[trigger] init[i]).name,
                (#[trigger] init[j]).name,
            ) by {
                assert(init[i] == items[i] && init[j] == items[j]);
            }
        }
        lemma_ascending_len(init);
        lemma_item_map_names(init);
        let last = items.last().name;
        assert(!has_name(init, last)) by {
            if has_name(init, last) {
                let k = choose|k: int| 0 <= k < init.len() && (#[trigger] init[k]).name == last;
                assert(init[k] == items[k]);
                assert(lex_lt(items[k].name, items[items.len() - 1].name));
                lemma_lex_asymmetric(last, last);
            }
        }
        assert(item_map(items).dom() =~= item_map(init).dom().insert(last));
    }
}

/// Two ascending sequences of items with the same mapping are the same
/// sequence.
pub proof fn lemma_ascending_unique(a: Seq<TreeItem>, b: Seq<TreeItem>)
    requires
        ascending(a),
        ascending(b),
        item_map(a) == item_map(b),
    ensures
        a == b,
    decreases a.len(),
{
    lemma_item_map_names(a);
    lemma_item_map_names(b);
    if a.len() == 0 {
        if b.len() > 0 {
            assert(b[0].name == b[0].name);
            assert(has_name(b, b[0].name));
            assert(item_map(a).dom().contains(b[0].name));
        }
        assert(a =~= b);
    } else {
        if b.len() == 0 {
            assert(has_name(a, a[0].name));
            assert(item_map(b).dom().contains(a[0].name));
        }
        let la = a.len() - 1;
        let lb = b.len() - 1;
        let ka = a[la].name;
        let kb = b[lb].name;
        assert(has_name(a, ka));
        assert(has_name(b, kb));
        assert(item_map(b).dom().contains(ka));
        assert(item_map(a).dom().contains(kb));
        assert(has_name(b, ka));
        assert(has_name(a, kb));
        let j = choose|j: int| 0 <= j < b.len() && (#[trigger] b[j]).name == ka;
        let i = choose|i: int| 0 <= i < a.len() && (#[trigger] a[i]).name == kb;
        if ka != kb {
            assert(lex_lt(b[j].name, b[lb].name));
            assert(lex_lt(a[i].name, a[la].name));
            lemma_lex_asymmetric(ka, kb);
        }
        lemma_item_map_values(a);
        lemma_item_map_values(b);
        assert(a[la].entry == b[lb].entry);
        let ia = a.drop_last();
        let ib = b.drop_last();
        lemma_item_map_names(ia);
        lemma_item_map_names(ib);
        assert(!has_name(ia, ka)) by {
            if has_name(ia, ka) {
                let k = choose|k: int| 0 <= k < ia.len() && (#[trigger] ia[k]).name == ka;
                assert(ia[k] == a[k]);
                assert(lex_lt(a[k].name, a[la].name));
                lemma_lex_asymmetric(ka, ka);
            }
        }
        assert(!has_name(ib, kb)) by {
            if has_name(ib, kb) {
                let k = choose|k: int| 0 <= k < ib.len() && (#[trigger] ib[k]).name == kb;
                assert(ib[k] == b[k]);
                assert(lex_lt(b[k].name, b[lb].name));
                lemma_lex_asymmetric(kb, kb);
            }
        }
        assert(item_map(ia) =~= item_map(a).remove(ka));
        assert(item_map(ib) =~= item_map(b).remove(kb));
        assert(ascending(ia)) by {
            assert forall|i: int, j: int| 0 <= i < j < ia.len() implies lex_lt(
                (#[trigger] ia[i]).name,
                (#[trigger] ia[j]).name,
            ) by {
                assert(ia[i] == a[i] && ia[j] == a[j]);
            }
        }
        assert(ascending(ib)) by {
            assert forall|i: int, j: int| 0 <= i < j < ib.len() implies lex_lt(
                (#[trigger] ib[i]).name,
                (#[trigger] ib[j]).name,
            ) by {
                assert(ib[i] == b[i] && ib[j] == b[j]);
            }
        }
        lemma_ascending_unique(ia, ib);
        assert(a =~= ia.push(a[la]));
        assert(b =~= ib.push(b[lb]));
    }
}

/// The canonical encoding of the mapping of ascending items is the bytes of
/// those items in their order: the order in which the items were put into
/// the mapping leaves no trace.
pub proof fn lemma_encoding_of_ascending(items: Seq<TreeItem>)
    requires
        ascending(items),
    ensures
        sorted_items(item_map(items)) == items,
        tree_encoding(item_map(items)) == items_encoding(items),
{
    let m = item_map(items);
    let chosen = sorted_items(m);
    assert(ascending(items) && item_map(items) == m);
    lemma_ascending_unique(chosen, items);
}

/// Putting an item between its neighbours in an ascending sequence keeps the
/// sequence ascending, and adds the item to the mapping.
pub proof fn lemma_insert_item(items: Seq<TreeItem>, i: int, item: TreeItem)
    requires
        ascending(items),
        0 <= i <= items.len(),
        forall|k: int| 0 <= k < i ==> lex_lt((#[trigger] items[k]).name, item.name),
        i < items.len() ==> lex_lt(item.name, items[i].name),
    ensures
        ascending(items.insert(i, item)),
        item_map(items.insert(i, item)) == item_map(items).insert(item.name, item.entry),
{
    let new = items.insert(i, item);
    assert(new.len() == items.len() + 1);
    assert(new[i] == item);
    assert(forall|k: int| 0 <= k < i ==> new[k] == items[k]);
    assert(forall|k: int| i < k < new.len() ==> new[k] == items[k - 1]);
    assert forall|k: int| i <= k < items.len() implies lex_lt(item.name, (#[trigger] items[k]).name) by {
        if k > i {
            lemma_lex_transitive(item.name, items[i].name, items[k].name);
        }
    }
    assert forall|a: int, b: int| 0 <= a < b < new.len() implies lex_lt(
        (#[trigger] new[a]).name,
        (#[trigger] new[b]).name,
    ) by {
        if b < i {
            assert(new[a] == items[a] && new[b] == items[b]);
        } else if b == i {
            assert(new[a] == items[a]);
        } else if a < i {
            assert(new[a] == items[a] && new[b] == items[b - 1]);
        } else if a == i {
            assert(new[b] == items[b - 1]);
        } else {
            assert(new[a] == items[a - 1] && new[b] == items[b - 1]);
        }
    }
    lemma_item_map_names(items);
    lemma_item_map_names(new);
    lemma_item_map_values(items);
    lemma_item_map_values(new);
    let target = item_map(items).insert(item.name, item.entry);
    assert forall|name: Seq<u8>| item_map(new).dom().contains(name) <==> target.dom().contains(
        name,
    ) by {
        if has_name(new, name) {
            let k = choose|k: int| 0 <= k < new.len() && (#[trigger] new[k]).name == name;
            if k < i {
                assert(items[k].name == name);
            } else if k > i {
                assert(items[k - 1].name == name);
            }
        }
        if name == item.name {
            assert(new[i].name == name);
        } else if has_name(items, name) {
            let k = choose|k: int| 0 <= k < items.len() && (#[trigger] items[k]).name == name;
            if k < i {
                assert(new[k].name == name);
            } else {
                assert(new[k + 1].name == name);
            }
        }
    }
    assert forall|name: Seq<u8>| item_map(new).dom().contains(name) implies item_map(new)[name]
        == target[name] by {
        let k = choose|k: int| 0 <= k < new.len() && (#[trigger] new[k]).name == name;
        if k < i {
            assert(items[k].name == name);
            lemma_lex_asymmetric(name, name);
        } else if k > i {
            assert(items[k - 1].name == name);
            lemma_lex_asymmetric(name, name);
        }
    }
    assert(item_map(new) =~= target);
}

/// Putting an item in the place of the one that has its name keeps an
/// ascending sequence ascending, and puts the item into the mapping.
pub proof fn lemma_replace_item(items: Seq<TreeItem>, i: int, item: TreeItem)
    requires
        ascending(items),
        0 <= i < items.len(),
        items[i].name == item.name,
    ensures
        ascending(items.update(i, item)),
        item_map(items.update(i, item)) == item_map(items).insert(item.name, item.entry),
{
    let new = items.update(i, item);
    assert forall|a: int, b: int| 0 <= a < b < new.len() implies lex_lt(
        (#[trigger] new[a]).name,
        (#[trigger] new[b]).name,
    ) by {
        assert(new[a].name == items[a].name && new[b].name == items[b].name);
    }
    lemma_item_map_names(items);
    lemma_item_map_names(new);
    lemma_item_map_values(items);
    lemma_item_map_values(new);
    let target = item_map(items).insert(item.name, item.entry);
    assert forall|name: Seq<u8>| item_map(new).dom().contains(name) <==> target.dom().contains(
        name,
    ) by {
        if has_name(new, name) {
            let k = choose|k: int| 0 <= k < new.len() && (#[trigger] new[k]).name == name;
            assert(items[k].name == name);
        }
        if name == item.name {
            assert(new[i].name == name);
        } else if has_name(items, name) {
            let k = choose|k: int| 0 <= k < items.len() && (#[trigger] items[k]).name == name;
            assert(new[k].name == name);
        }
    }
    assert forall|name: Seq<u8>| item_map(new).dom().contains(name) implies item_map(new)[name]
        == target[name] by {
        let k = choose|k: int| 0 <= k < new.len() && (#[trigger] new[k]).name == name;
        assert(items[k].name == name);
        if k != i {
            if k < i {
                assert(lex_lt(items[k].name, items[i].name));
            } else {
                assert(lex_lt(items[i].name, items[k].name));
            }
            lemma_lex_asymmetric(name, name);
        }
    }
    assert(item_map(new) =~= target);
}

/// The number of items at the start of `items` whose names come before
/// `name`.
pub open spec fn position(items: Seq<TreeItem>, name: Seq<u8>) -> int
    decreases items.len(),
{
    if items.len() > 0 && lex_lt(items[0].name, name) {
        1 + position(items.skip(1), name)
    } else {
        0
    }
}

/// `position` is where the names stop coming before `name`.
pub proof fn lemma_position(items: Seq<TreeItem>, name: Seq<u8>)
    ensures
        0 <= position(items, name) <= items.len(),
        forall|k: int| 0 <= k < position(items, name) ==> lex_lt((#[trigger] items[k]).name, name),
        position(items, name) < items.len() ==> !lex_lt(items[position(items, name)].name, name),
    decreases items.len(),
{
    if items.len() > 0 && lex_lt(items[0].name, name) {
        let tail = items.skip(1);
        lemma_position(tail, name);
        assert forall|k: int| 0 <= k < position(items, name) implies lex_lt(
            (#[trigger] items[k]).name,
            name,
        ) by {
            if k > 0 {
                assert(items[k] == tail[k - 1]);
            }
        }
        if position(items, name) < items.len() {
            assert(items[position(items, name)] == tail[position(tail, name)]);
        }
    }
}

/// Every finite mapping has its entries in ascending order, and
/// `sorted_items` is that sequence.
pub proof fn lemma_sorted_items(m: Map<Seq<u8>, TreeEntryView>)
    requires
        m.dom().finite(),
    ensures
        ascending(sorted_items(m)),
        item_map(sorted_items(m)) == m,
    decreases m.dom().len(),
{
    if m.dom().len() == 0 {
        let none = Seq::<TreeItem>::empty();
        assert(m.dom() =~= Set::empty());
        assert(item_map(none) =~= m);
        assert(ascending(none));
    } else {
        let name = m.dom().choose();
        let less = m.remove(name);
        lemma_sorted_items(less);
        let items = sorted_items(less);
        let item = TreeItem { name, entry: m[name] };
        let i = position(items, name);
        lemma_position(items, name);
        lemma_item_map_names(items);
        if i < items.len() {
            assert(has_name(items, items[i].name));
            lemma_lex_total(name, items[i].name);
        }
        lemma_insert_item(items, i, item);
        let all = items.insert(i, item);
        assert(item_map(all) =~= m);
    }
}

/// The bytes of `items` with one more item after them.
pub proof fn lemma_items_encoding_push(items: Seq<TreeItem>, item: TreeItem)
    ensures
        items_encoding(items.push(item)) == items_encoding(items) + item_encoding(item),
    decreases items.len(),
{
    if items.len() == 0 {
        let one = items.push(item);
        assert(one.skip(1) =~= Seq::<TreeItem>::empty());
        assert(items_encoding(one.skip(1)) == Seq::<u8>::empty());
        assert(items_encoding(one) == item_encoding(one[0]) + items_encoding(one.skip(1)));
        assert(items_encoding(one) =~= items_encoding(items) + item_encoding(item));
    } else {
        lemma_items_encoding_push(items.skip(1), item);
        assert(items.push(item).skip(1) =~= items.skip(1).push(item));
        lemma_append(item_encoding(items[0]), items_encoding(items.skip(1)), item_encoding(item));
    }
}

/// Where `items` have a listing, so has each of them.
pub proof fn lemma_items_text_each(items: Seq<TreeItem>, k: int)
    requires
        items_text(items) is Some,
        0 <= k < items.len(),
    ensures
        item_text(items[k]) is Some,
    decreases items.len(),
{
    if k < items.len() - 1 {
        lemma_items_text_each(items.drop_last(), k);
    }
}

/// Whether `items` can be told apart again once they are encoded: no mode
/// holds a space, no name a zero byte, and every identifier has its 20
/// bytes.
pub open spec fn encodable(items: Seq<TreeItem>) -> bool {
    forall|i: int|
        0 <= i < items.len() ==> {
            &&& first_index((#[trigger] items[i]).entry.mode, 32) == items[i].entry.mode.len()
            &&& first_index(items[i].name, 0) == items[i].name.len()
            &&& items[i].entry.oid.len() == 20
        }
}

/// Whether the entries of `m` can be told apart again once they are encoded:
/// no name holds a zero byte, no mode a space, and every identifier has its
/// 20 bytes.
pub open spec fn tree_encodable(m: Map<Seq<u8>, TreeEntryView>) -> bool {
    &&& m.dom().finite()
    &&& forall|name: Seq<u8>| #[trigger]
        m.dom().contains(name) ==> {
            &&& first_index(name, 0) == name.len()
            &&& first_index(m[name].mode, 32) == m[name].mode.len()
            &&& m[name].oid.len() == 20
        }
}

/// An encodable item that is written out, with anything after it, is read
/// back as it was, and the read stops where the item ends.
pub proof fn lemma_first_item_of_encoding(item: TreeItem, rest: Seq<u8>)
    requires
        encodable(seq![item]),
    ensures
        item_fits(item_encoding(item) + rest),
        first_item(item_encoding(item) + rest) == item,
        item_len(item_encoding(item) + rest) == item_encoding(item).len(),
        (item_encoding(item) + rest).skip(item_encoding(item).len() as int) == rest,
{
    let it = seq![item];
    assert(it[0] == item);
    let mode = item.entry.mode;
    let name = item.name;
    let oid = item.entry.oid;
    let s = item_encoding(item) + rest;
    let m = mode.len() as int;
    let n = name.len() as int;
    lemma_first_index(mode, 32);
    lemma_first_index(name, 0);
    assert(s =~= mode + (seq![32u8] + (name + (seq![0u8] + (oid + rest)))));
    assert forall|i: int| 0 <= i < m implies s[i] != 32 by {
        assert(s[i] == mode[i]);
    }
    assert(s[m] == 32);
    lemma_first_index_is(s, 32, m);
    let after = s.skip(m + 1);
    assert(after =~= name + (seq![0u8] + (oid + rest)));
    assert forall|i: int| 0 <= i < n implies after[i] != 0 by {
        assert(after[i] == name[i]);
    }
    assert(after[n] == 0);
    lemma_first_index_is(after, 0, n);
    assert(s.take(m) =~= mode);
    assert(s.subrange(m + 1, m + 1 + n) =~= name);
    assert(s.subrange(m + n + 2, m + n + 22) =~= oid);
    lemma_skip_prefix(item_encoding(item), rest);
}

/// Encodable items that are written out are read back as they were.
pub proof fn lemma_parse_of_items_encoding(items: Seq<TreeItem>)
    requires
        encodable(items),
    ensures
        parse_items(items_encoding(items)) == Ok::<_, Error>(items),
    decreases items.len(),
{
    if items.len() == 0 {
        assert(parse_items(items_encoding(items))->Ok_0 =~= items);
    } else {
        let rest = items_encoding(items.skip(1));
        assert(encodable(seq![items[0]])) by {
            assert(seq![items[0]][0] == items[0]);
        }
        assert(encodable(items.skip(1))) by {
            assert forall|i: int| 0 <= i < items.skip(1).len() implies {
                &&& first_index((#[trigger] items.skip(1)[i]).entry.mode, 32) == items.skip(
                    1,
                )[i].entry.mode.len()
                &&& first_index(items.skip(1)[i].name, 0) == items.skip(1)[i].name.len()
                &&& items.skip(1)[i].entry.oid.len() == 20
            } by {
                assert(items.skip(1)[i] == items[i + 1]);
            }
        }
        lemma_first_item_of_encoding(items[0], rest);
        lemma_parse_of_items_encoding(items.skip(1));
        assert(seq![items[0]] + items.skip(1) =~= items);
    }
}

/// A tree whose entries are encodable is decoded from its canonical encoding
/// as the tree that it was.
pub proof fn lemma_tree_round_trip(m: Map<Seq<u8>, TreeEntryView>)
    requires
        tree_encodable(m),
    ensures
        tree_decoding(tree_encoding(m)) == Ok::<_, Error>(m),
{
    lemma_sorted_items(m);
    let items = sorted_items(m);
    lemma_item_map_names(items);
    lemma_item_map_values(items);
    assert forall|i: int| 0 <= i < items.len() implies {
        &&& first_index((#[trigger] items[i]).entry.mode, 32) == items[i].entry.mode.len()
        &&& first_index(items[i].name, 0) == items[i].name.len()
        &&& items[i].entry.oid.len() == 20
    } by {
        assert(has_name(items, items[i].name));
        assert(m.dom().contains(items[i].name));
    }
    lemma_parse_of_items_encoding(items);
}

/// The canonical encoding keeps no trace of the order in which entries were
/// put into a tree: two sequences of items that build the same mapping give
/// the same bytes.
pub proof fn lemma_encoding_ignores_order(a: Seq<TreeItem>, b: Seq<TreeItem>)
    requires
        item_map(a) == item_map(b),
    ensures
        tree_encoding(item_map(a)) == tree_encoding(item_map(b)),
{
}

/// Two entries with different names can be put into a mapping in either
/// order.
pub proof fn lemma_insert_commutes(
    m: Map<Seq<u8>, TreeEntryView>,
    first: TreeItem,
    second: TreeItem,
)
    requires
        first.name != second.name,
    ensures
        m.insert(first.name, first.entry).insert(second.name, second.entry) == m.insert(
            second.name,
            second.entry,
        ).insert(first.name, first.entry),
{
    assert(m.insert(first.name, first.entry).insert(second.name, second.entry) =~= m.insert(
        second.name,
        second.entry,
    ).insert(first.name, first.entry));
}

} // verus!

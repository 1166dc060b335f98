use vstd::prelude::*;

verus! {

/// An entry of the scanned tree: a folder with its own contents, or a file.
#[derive(Debug)]
pub enum FileOrFolder {
    Folder(Folder),
    File(File),
}

/// A file, with the number of bytes that it is counted for.
#[derive(Debug, Clone)]
pub struct File {
    pub size: u128,
}

/// A folder: its named entries, the bytes counted below it and the number of
/// entries that were added below it.
///
/// `contents` holds each name at most once (see `Folder::wf`); its order
/// carries no meaning.
#[derive(Debug)]
pub struct Folder {
    pub contents: Vec<(String, FileOrFolder)>,
    pub size: u128,
    pub num_descendants: u64,
}

/// What a directory entry tells about itself: whether it is a directory, its
/// length in bytes, and the space that it takes on disk where that is known.
#[derive(Debug, Clone, Copy, PartialEq, Eq)]
pub struct EntryMetadata {
    pub is_dir: bool,
    pub len: u64,
    pub size_on_disk: Option<u64>,
}

/// The components of a path, each as a sequence of characters.
pub open spec fn path_view(path: Seq<String>) -> Seq<Seq<char>> {
    path.map_values(|s: String| s@)
}

/// No name occurs twice among the entries.
pub open spec fn names_distinct(entries: Seq<(String, FileOrFolder)>) -> bool {
    forall|i: int, j: int|
        0 <= i < entries.len() && 0 <= j < entries.len() && i != j ==> #[trigger] entries[i].0@
            != #[trigger] entries[j].0@
}

/// Some entry carries `name`.
pub open spec fn entries_have(entries: Seq<(String, FileOrFolder)>, name: Seq<char>) -> bool {
    exists|i: int| 0 <= i < entries.len() && #[trigger] entries[i].0@ == name
}

/// The entries seen as a map from name to item.
pub open spec fn entries_map(entries: Seq<(String, FileOrFolder)>) -> Map<Seq<char>, FileOrFolder> {
    Map::new(
        |name: Seq<char>| entries_have(entries, name),
        |name: Seq<char>|
            entries[choose|i: int| 0 <= i < entries.len() && #[trigger] entries[i].0@ == name].1,
    )
}

impl EntryMetadata {
    /// The bytes that the entry is counted for (see `counted_size`).
    pub fn size_to_count(&self, show_apparent_size: bool) -> (size: u128)
        ensures
            size == counted_size(*self, show_apparent_size),
            !show_apparent_size && self.size_on_disk is Some ==> size as int
                == self.size_on_disk->0 as int,
            show_apparent_size || self.size_on_disk is None ==> size as int == self.len as int,
    {
        if show_apparent_size {
            self.len as u128
        } else {
            match self.size_on_disk {
                Some(on_disk) => on_disk as u128,
                None => self.len as u128,
            }
        }
    }
}

impl FileOrFolder {
    /// The number of bytes that the item is counted for.
    pub open spec fn spec_size(&self) -> u128 {
        match self {
            FileOrFolder::Folder(folder) => folder.size,
            FileOrFolder::File(file) => file.size,
        }
    }

    /// The number of bytes that the item is counted for.
    pub fn size(&self) -> (size: u128)
        ensures
            size == self.spec_size(),
    {
        match self {
            FileOrFolder::Folder(folder) => folder.size,
            FileOrFolder::File(file) => file.size,
        }
    }
}

impl Folder {
    /// The folder's entries, by name.
    pub open spec fn children(&self) -> Map<Seq<char>, FileOrFolder> {
        entries_map(self.contents@)
    }

    /// A folder with no entries, no bytes and no descendants.
    pub open spec fn is_empty_folder(&self) -> bool {
        &&& self.contents@.len() == 0
        &&& self.size == 0
        &&& self.num_descendants == 0
    }

    /// No folder, this one or one inside it, holds a name twice.
    pub open spec fn names_unique(&self) -> bool
        decreases self,
    {
        &&& names_distinct(self.contents@)
        &&& forall|i: int|
            0 <= i < self.contents@.len() ==> match #[trigger] self.contents@[i].1 {
                FileOrFolder::Folder(c) => c.names_unique(),
                FileOrFolder::File(_) => true,
            }
    }

    /// Well-formedness: names are distinct, every item inside is counted for
    /// no more bytes than the folder, every folder inside has no more
    /// descendants than the folder, and every folder inside is well formed.
    pub open spec fn wf(&self) -> bool
        decreases self,
    {
        &&& names_distinct(self.contents@)
        &&& forall|i: int|
            0 <= i < self.contents@.len() ==> match #[trigger] self.contents@[i].1 {
                FileOrFolder::Folder(c) => {
                    &&& c.size <= self.size
                    &&& c.num_descendants <= self.num_descendants
                    &&& c.wf()
                },
                FileOrFolder::File(f) => f.size <= self.size,
            }
    }

    /// The item that `names` leads to: each name but the last must lead to a
    /// folder; a file met before the end of `names` is the result itself.
    pub open spec fn lookup(&self, names: Seq<Seq<char>>) -> Option<FileOrFolder>
        decreases names.len(),
    {
        if names.len() == 0 || !self.children().contains_key(names[0]) {
            None
        } else if names.len() == 1 {
            Some(self.children()[names[0]])
        } else {
            match self.children()[names[0]] {
                FileOrFolder::Folder(sub) => sub.lookup(names.drop_first()),
                FileOrFolder::File(file) => Some(FileOrFolder::File(file)),
            }
        }
    }
}

/// The bytes of a folder before an addition; `None` stands for a folder that
/// the addition creates, empty.
pub open spec fn size_before(before: Option<Folder>) -> u128 {
    match before {
        Some(f) => f.size,
        None => 0,
    }
}

/// The descendants of a folder before an addition (`None`: a new folder).
pub open spec fn descendants_before(before: Option<Folder>) -> u64 {
    match before {
        Some(f) => f.num_descendants,
        None => 0,
    }
}

/// The entries of a folder before an addition (`None`: a new folder).
pub open spec fn children_before(before: Option<Folder>) -> Map<Seq<char>, FileOrFolder> {
    match before {
        Some(f) => f.children(),
        None => Map::empty(),
    }
}

/// The folder named `name` inside `before`, if there is one.
pub open spec fn subfolder_before(before: Option<Folder>, name: Seq<char>) -> Option<Folder> {
    if children_before(before).contains_key(name) {
        match children_before(before)[name] {
            FileOrFolder::Folder(sub) => Some(sub),
            FileOrFolder::File(_) => None,
        }
    } else {
        None
    }
}

/// No name of `path` but the last leads to a file, starting from `before`.
pub open spec fn path_clear(before: Option<Folder>, path: Seq<Seq<char>>) -> bool
    decreases path.len(),
{
    if path.len() <= 1 {
        true
    } else if children_before(before).contains_key(path[0]) {
        match children_before(before)[path[0]] {
            FileOrFolder::Folder(sub) => path_clear(Some(sub), path.drop_first()),
            FileOrFolder::File(_) => false,
        }
    } else {
        true
    }
}

/// Every folder on the way of an addition at `path` that is already there
/// (starting with `before`) has room for `size` more bytes and one more
/// descendant.
pub open spec fn room_along(before: Option<Folder>, path: Seq<Seq<char>>, size: u128) -> bool
    decreases path.len(),
{
    &&& size_before(before) + size <= u128::MAX
    &&& descendants_before(before) < u64::MAX
    &&& path.len() > 1 ==> room_along(subfolder_before(before, path[0]), path.drop_first(), size)
}

/// `after` is `before` with a file of `size` bytes added at `path`: every
/// folder on the way (created empty where missing) counts `size` more bytes
/// and one more descendant, the last name holds the new file, and every other
/// entry is left as it was.
pub open spec fn file_added(
    before: Option<Folder>,
    after: Folder,
    path: Seq<Seq<char>>,
    size: u128,
) -> bool
    decreases path.len(),
{
    if path.len() == 0 {
        false
    } else {
        let name = path[0];
        &&& after.size == size_before(before) + size
        &&& after.num_descendants == descendants_before(before) + 1
        &&& after.children().contains_key(name)
        &&& after.children().remove(name) == children_before(before).remove(name)
        &&& if path.len() == 1 {
            after.children()[name] == FileOrFolder::File(File { size })
        } else {
            match after.children()[name] {
                FileOrFolder::Folder(sub) => file_added(
                    subfolder_before(before, name),
                    sub,
                    path.drop_first(),
                    size,
                ),
                FileOrFolder::File(_) => false,
            }
        }
    }
}

/// `after` is `before` with an empty folder added at `path`: every folder on
/// the way (created empty where missing) counts one more descendant, the last
/// name holds a new empty folder, and every other entry is left as it was.
pub open spec fn folder_added(before: Option<Folder>, after: Folder, path: Seq<Seq<char>>) -> bool
    decreases path.len(),
{
    if path.len() == 0 {
        false
    } else {
        let name = path[0];
        &&& after.size == size_before(before)
        &&& after.num_descendants == descendants_before(before) + 1
        &&& after.children().contains_key(name)
        &&& after.children().remove(name) == children_before(before).remove(name)
        &&& match after.children()[name] {
            FileOrFolder::Folder(sub) => if path.len() == 1 {
                sub.is_empty_folder()
            } else {
                folder_added(subfolder_before(before, name), sub, path.drop_first())
            },
            FileOrFolder::File(_) => false,
        }
    }
}

/// The bytes that an entry is counted for: its length where the apparent
/// size is asked for, else its size on disk, or its length where that is
/// unknown.
pub open spec fn counted_size(metadata: EntryMetadata, show_apparent_size: bool) -> u128 {
    if show_apparent_size {
        metadata.len as u128
    } else {
        match metadata.size_on_disk {
            Some(on_disk) => on_disk as u128,
            None => metadata.len as u128,
        }
    }
}

/// An entry is counted for its size on disk, as a number, where the apparent
/// size is not asked for and that size is known, and for its length
/// otherwise: the 64-bit value is widened whole, never cut short.
pub proof fn lemma_counted_size_widens(metadata: EntryMetadata, show_apparent_size: bool)
    ensures
        !show_apparent_size && metadata.size_on_disk is Some ==> counted_size(
            metadata,
            show_apparent_size,
        ) as int == metadata.size_on_disk->0 as int,
        show_apparent_size || metadata.size_on_disk is None ==> counted_size(
            metadata,
            show_apparent_size,
        ) as int == metadata.len as int,
        counted_size(metadata, true) as int == metadata.len as int,
{
}

/// Recording a file entry below a folder adds to the folder's bytes exactly
/// the entry's size on disk where the apparent size is not asked for and
/// that size is known, and exactly its length otherwise.
pub proof fn lemma_file_entry_adds_its_bytes(
    before: Folder,
    after: Folder,
    metadata: EntryMetadata,
    show_apparent_size: bool,
    path: Seq<Seq<char>>,
)
    requires
        file_added(Some(before), after, path, counted_size(metadata, show_apparent_size)),
    ensures
        !show_apparent_size && metadata.size_on_disk is Some ==> after.size as int == before.size
            + metadata.size_on_disk->0 as int,
        show_apparent_size || metadata.size_on_disk is None ==> after.size as int == before.size
            + metadata.len as int,
{
    lemma_counted_size_widens(metadata, show_apparent_size);
}


/// In entries with distinct names, the entry at `i` is the one that its name maps to.
proof fn lemma_entries_map_index(entries: Seq<(String, FileOrFolder)>, i: int)
    requires
        names_distinct(entries),
        0 <= i < entries.len(),
    ensures
        entries_map(entries).contains_key(entries[i].0@),
        entries_map(entries)[entries[i].0@] == entries[i].1,
{
    let name = entries[i].0@;
    assert(entries_have(entries, name));
    let j = choose|j: int| 0 <= j < entries.len() && #[trigger] entries[j].0@ == name;
    assert(j == i);
}

/// Replacing the entry at `i` by one of the same name replaces that name's
/// item in the map.
proof fn lemma_entries_map_update(
    entries: Seq<(String, FileOrFolder)>,
    i: int,
    entry: (String, FileOrFolder),
)
    requires
        names_distinct(entries),
        0 <= i < entries.len(),
        entry.0@ == entries[i].0@,
    ensures
        names_distinct(entries.update(i, entry)),
        entries_map(entries.update(i, entry)) == entries_map(entries).insert(entry.0@, entry.1),
{
    let name = entries[i].0@;
    let item = entry.1;
    let updated = entries.update(i, entry);
    assert(names_distinct(updated)) by {
        assert forall|a: int, b: int|
            0 <= a < updated.len() && 0 <= b < updated.len() && a != b implies #[trigger] updated[a].0@
            != #[trigger] updated[b].0@ by {
            assert(updated[a].0@ == entries[a].0@);
            assert(updated[b].0@ == entries[b].0@);
        }
    }
    let m = entries_map(updated);
    let expected = entries_map(entries).insert(name, item);
    assert forall|n: Seq<char>| #[trigger] m.contains_key(n) <==> expected.contains_key(n) by {
        if entries_have(updated, n) {
            let j = choose|j: int| 0 <= j < updated.len() && #[trigger] updated[j].0@ == n;
            assert(entries[j].0@ == n);
        }
        if entries_have(entries, n) {
            let j = choose|j: int| 0 <= j < entries.len() && #[trigger] entries[j].0@ == n;
            assert(updated[j].0@ == n);
        }
        if n == name {
            assert(updated[i].0@ == n);
        }
    }
    assert forall|n: Seq<char>| #[trigger] m.contains_key(n) implies m[n] == expected[n] by {
        lemma_entries_map_index(updated, i);
        let j = choose|j: int| 0 <= j < updated.len() && #[trigger] updated[j].0@ == n;
        lemma_entries_map_index(updated, j);
        if n != name {
            assert(j != i);
            assert(updated[j] == entries[j]);
            lemma_entries_map_index(entries, j);
        }
    }
    assert(m =~= expected);
}

/// Appending an entry under a new name adds that name to the map.
proof fn lemma_entries_map_push(entries: Seq<(String, FileOrFolder)>, entry: (String, FileOrFolder))
    requires
        names_distinct(entries),
        !entries_have(entries, entry.0@),
    ensures
        names_distinct(entries.push(entry)),
        entries_map(entries.push(entry)) == entries_map(entries).insert(entry.0@, entry.1),
{
    let pushed = entries.push(entry);
    let last = entries.len() as int;
    assert(names_distinct(pushed)) by {
        assert forall|a: int, b: int|
            0 <= a < pushed.len() && 0 <= b < pushed.len() && a != b implies #[trigger] pushed[a].0@
            != #[trigger] pushed[b].0@ by {
            if a < last && b < last {
                assert(pushed[a] == entries[a]);
                assert(pushed[b] == entries[b]);
            } else if a < last {
                assert(pushed[a] == entries[a]);
                assert(entries[a].0@ != entry.0@);
            } else {
                assert(pushed[b] == entries[b]);
                assert(entries[b].0@ != entry.0@);
            }
        }
    }
    let m = entries_map(pushed);
    let expected = entries_map(entries).insert(entry.0@, entry.1);
    assert forall|n: Seq<char>| #[trigger] m.contains_key(n) <==> expected.contains_key(n) by {
        if entries_have(pushed, n) {
            let j = choose|j: int| 0 <= j < pushed.len() && #[trigger] pushed[j].0@ == n;
            if j < last {
                assert(pushed[j] == entries[j]);
            }
        }
        if entries_have(entries, n) {
            let j = choose|j: int| 0 <= j < entries.len() && #[trigger] entries[j].0@ == n;
            assert(pushed[j] == entries[j]);
        }
        if n == entry.0@ {
            assert(pushed[last].0@ == n);
        }
    }
    assert forall|n: Seq<char>| #[trigger] m.contains_key(n) implies m[n] == expected[n] by {
        let j = choose|j: int| 0 <= j < pushed.len() && #[trigger] pushed[j].0@ == n;
        lemma_entries_map_index(pushed, j);
        if j < last {
            assert(pushed[j] == entries[j]);
            lemma_entries_map_index(entries, j);
        }
    }
    assert(m =~= expected);
}

/// No entries, no names.
proof fn lemma_entries_map_empty(entries: Seq<(String, FileOrFolder)>)
    requires
        entries.len() == 0,
    ensures
        entries_map(entries) == Map::<Seq<char>, FileOrFolder>::empty(),
{
    assert(entries_map(entries) =~= Map::<Seq<char>, FileOrFolder>::empty());
}

impl Folder {
    /// An empty folder.
    pub fn new() -> (folder: Self)
        ensures
            folder.is_empty_folder(),
            folder.wf(),
            folder.names_unique(),
            folder.tallies_match(),
            folder.children() == Map::<Seq<char>, FileOrFolder>::empty(),
    {
        let folder = Folder { contents: Vec::new(), size: 0, num_descendants: 0 };
        proof {
            lemma_entries_map_empty(folder.contents@);
        }
        folder
    }

    /// The index of the entry named `name`, if there is one.
    fn find_entry(&self, name: &String) -> (found: Option<usize>)
        ensures
            match found {
                Some(i) => i < self.contents@.len() && self.contents@[i as int].0@ == name@,
                None => !entries_have(self.contents@, name@),
            },
    {
        let mut i: usize = 0;
        while i < self.contents.len()
            invariant
                i <= self.contents@.len(),
                forall|j: int| 0 <= j < i ==> self.contents@[j].0@ != name@,
            decreases self.contents@.len() - i,
        {
            if self.contents[i].0 == *name {
                return Some(i);
            }
            i = i + 1;
        }
        None
    }
}


/// Starting from an empty folder is starting from a folder that the addition creates.
proof fn lemma_file_added_from_empty(empty: Folder, after: Folder, path: Seq<Seq<char>>, size: u128)
    requires
        empty.is_empty_folder(),
        empty.children() == Map::<Seq<char>, FileOrFolder>::empty(),
        file_added(Some(empty), after, path, size),
    ensures
        file_added(None, after, path, size),
{
    assert(children_before(Some(empty)) == children_before(None));
}

/// An empty folder has room along every path, for any size.
proof fn lemma_room_in_empty(empty: Folder, path: Seq<Seq<char>>, size: u128)
    requires
        empty.is_empty_folder(),
        empty.children() == Map::<Seq<char>, FileOrFolder>::empty(),
    ensures
        room_along(Some(empty), path, size),
{
    if path.len() > 1 {
        lemma_room_in_new(path.drop_first(), size);
    }
}

/// A folder that an addition creates has room along every path.
proof fn lemma_room_in_new(path: Seq<Seq<char>>, size: u128)
    ensures
        room_along(None, path, size),
    decreases path.len(),
{
    if path.len() > 1 {
        lemma_room_in_new(path.drop_first(), size);
    }
}

/// From an empty folder, every path is clear.
proof fn lemma_path_clear_empty(empty: Folder, path: Seq<Seq<char>>)
    requires
        empty.children() == Map::<Seq<char>, FileOrFolder>::empty(),
    ensures
        path_clear(Some(empty), path),
{
}

impl Folder {
    /// Adds a file of `size` bytes at `path[start..]`, below this folder.
    fn add_file_from(&mut self, path: &Vec<String>, start: usize, size: u128)
        requires
            old(self).names_unique(),
            start < path@.len(),
            path_clear(Some(*old(self)), path_view(path@).skip(start as int)),
            room_along(Some(*old(self)), path_view(path@).skip(start as int), size),
        ensures
            final(self).names_unique(),
            old(self).wf() ==> final(self).wf(),
            file_added(Some(*old(self)), *final(self), path_view(path@).skip(start as int), size),
        decreases path@.len() - start,
    {
        let ghost p = path_view(path@).skip(start as int);
        let ghost before = *self;
        let name = &path[start];
        assert(p[0] == name@);
        assert(p.drop_first() =~= path_view(path@).skip(start + 1));
        let found = self.find_entry(name);
        self.size = self.size + size;
        self.num_descendants = self.num_descendants + 1;
        if path.len() - start > 1 {
            match found {
                Some(i) => {
                    proof {
                        lemma_entries_map_index(self.contents@, i as int);
                    }
                    let entry = &mut self.contents[i];
                    match &mut entry.1 {
                        FileOrFolder::Folder(sub) => {
                            sub.add_file_from(path, start + 1, size);
                        },
                        FileOrFolder::File(_) => {
                            assert(false);
                        },
                    }
                    proof {
                        lemma_entries_map_update(before.contents@, i as int, self.contents@[i as int]);
                    }
                },
                None => {
                    let mut sub = Folder::new();
                    let ghost empty = sub;
                    proof {
                        lemma_path_clear_empty(sub, p.drop_first());
                        lemma_room_in_empty(sub, p.drop_first(), size);
                    }
                    sub.add_file_from(path, start + 1, size);
                    proof {
                        lemma_file_added_from_empty(empty, sub, p.drop_first(), size);
                    }
                    let entry = (name.clone(), FileOrFolder::Folder(sub));
                    proof {
                        lemma_entries_map_push(before.contents@, entry);
                    }
                    self.contents.push(entry);
                },
            }
        } else {
            let entry = (name.clone(), FileOrFolder::File(File { size }));
            match found {
                Some(i) => {
                    proof {
                        lemma_entries_map_update(before.contents@, i as int, entry);
                    }
                    self.contents.set(i, entry);
                },
                None => {
                    proof {
                        lemma_entries_map_push(before.contents@, entry);
                    }
                    self.contents.push(entry);
                },
            }
        }
        assert(self.children().remove(p[0]) =~= before.children().remove(p[0]));
    }
}


/// Starting from an empty folder is starting from a folder that the addition creates.
proof fn lemma_folder_added_from_empty(empty: Folder, after: Folder, path: Seq<Seq<char>>)
    requires
        empty.is_empty_folder(),
        empty.children() == Map::<Seq<char>, FileOrFolder>::empty(),
        folder_added(Some(empty), after, path),
    ensures
        folder_added(None, after, path),
{
    assert(children_before(Some(empty)) == children_before(None));
}

impl Folder {
    /// Adds an empty folder at `path[start..]`, below this folder.
    fn add_folder_from(&mut self, path: &Vec<String>, start: usize)
        requires
            old(self).names_unique(),
            start < path@.len(),
            path_clear(Some(*old(self)), path_view(path@).skip(start as int)),
            room_along(Some(*old(self)), path_view(path@).skip(start as int), 0),
        ensures
            final(self).names_unique(),
            old(self).wf() ==> final(self).wf(),
            folder_added(Some(*old(self)), *final(self), path_view(path@).skip(start as int)),
        decreases path@.len() - start,
    {
        let ghost p = path_view(path@).skip(start as int);
        let ghost before = *self;
        let name = &path[start];
        assert(p[0] == name@);
        assert(p.drop_first() =~= path_view(path@).skip(start + 1));
        let found = self.find_entry(name);
        self.num_descendants = self.num_descendants + 1;
        if path.len() - start > 1 {
            match found {
                Some(i) => {
                    proof {
                        lemma_entries_map_index(self.contents@, i as int);
                    }
                    let entry = &mut self.contents[i];
                    match &mut entry.1 {
                        FileOrFolder::Folder(sub) => {
                            sub.add_folder_from(path, start + 1);
                        },
                        FileOrFolder::File(_) => {
                            assert(false);
                        },
                    }
                    proof {
                        lemma_entries_map_update(before.contents@, i as int, self.contents@[i as int]);
                    }
                },
                None => {
                    let mut sub = Folder::new();
                    let ghost empty = sub;
                    proof {
                        lemma_path_clear_empty(sub, p.drop_first());
                        lemma_room_in_empty(sub, p.drop_first(), 0);
                    }
                    sub.add_folder_from(path, start + 1);
                    proof {
                        lemma_folder_added_from_empty(empty, sub, p.drop_first());
                    }
                    let entry = (name.clone(), FileOrFolder::Folder(sub));
                    proof {
                        lemma_entries_map_push(before.contents@, entry);
                    }
                    self.contents.push(entry);
                },
            }
        } else {
            let entry = (name.clone(), FileOrFolder::Folder(Folder::new()));
            match found {
                Some(i) => {
                    proof {
                        lemma_entries_map_update(before.contents@, i as int, entry);
                    }
                    self.contents.set(i, entry);
                },
                None => {
                    proof {
                        lemma_entries_map_push(before.contents@, entry);
                    }
                    self.contents.push(entry);
                },
            }
        }
        assert(self.children().remove(p[0]) =~= before.children().remove(p[0]));
    }

    /// Records an entry met while scanning, at `relative_path` below this
    /// folder: a directory as an empty folder, anything else as a file of
    /// `counted_size` bytes. An empty path changes nothing.
    pub fn add_entry(
        &mut self,
        entry_metadata: &EntryMetadata,
        relative_path: Vec<String>,
        show_apparent_size: bool,
    )
        requires
            old(self).names_unique(),
            relative_path@.len() > 0 ==> {
                &&& path_clear(Some(*old(self)), path_view(relative_path@))
                &&& room_along(
                    Some(*old(self)),
                    path_view(relative_path@),
                    if entry_metadata.is_dir {
                        0
                    } else {
                        counted_size(*entry_metadata, show_apparent_size)
                    },
                )
            },
        ensures
            old(self).wf() ==> final(self).wf(),
            final(self).names_unique(),
            relative_path@.len() == 0 ==> *final(self) == *old(self),
            relative_path@.len() > 0 && entry_metadata.is_dir ==> folder_added(
                Some(*old(self)),
                *final(self),
                path_view(relative_path@),
            ),
            relative_path@.len() > 0 && !entry_metadata.is_dir ==> file_added(
                Some(*old(self)),
                *final(self),
                path_view(relative_path@),
                counted_size(*entry_metadata, show_apparent_size),
            ),
    {
        if entry_metadata.is_dir {
            self.add_folder(relative_path);
        } else {
            let size = entry_metadata.size_to_count(show_apparent_size);
            self.add_file(relative_path, size);
        }
    }

    /// Adds an empty folder at `path` below this folder, creating the
    /// folders on the way; an entry already at `path` is replaced. An empty
    /// path changes nothing.
    pub fn add_folder(&mut self, path: Vec<String>)
        requires
            old(self).names_unique(),
            path@.len() > 0 ==> {
                &&& path_clear(Some(*old(self)), path_view(path@))
                &&& room_along(Some(*old(self)), path_view(path@), 0)
            },
        ensures
            old(self).wf() ==> final(self).wf(),
            final(self).names_unique(),
            path@.len() == 0 ==> *final(self) == *old(self),
            path@.len() > 0 ==> folder_added(Some(*old(self)), *final(self), path_view(path@)),
    {
        if path.len() > 0 {
            assert(path_view(path@).skip(0) =~= path_view(path@));
            self.add_folder_from(&path, 0);
        }
    }

    /// Adds a file of `size` bytes at `path` below this folder, creating the
    /// folders on the way; an entry already at `path` is replaced. An empty
    /// path changes nothing.
    pub fn add_file(&mut self, path: Vec<String>, size: u128)
        requires
            old(self).names_unique(),
            path@.len() > 0 ==> {
                &&& path_clear(Some(*old(self)), path_view(path@))
                &&& room_along(Some(*old(self)), path_view(path@), size)
            },
        ensures
            old(self).wf() ==> final(self).wf(),
            final(self).names_unique(),
            path@.len() == 0 ==> *final(self) == *old(self),
            path@.len() > 0 ==> file_added(Some(*old(self)), *final(self), path_view(path@), size),
    {
        if path.len() > 0 {
            assert(path_view(path@).skip(0) =~= path_view(path@));
            self.add_file_from(&path, 0, size);
        }
    }

    /// The item that `names[start..]` leads to below this folder.
    fn path_from(&self, names: &Vec<String>, start: usize) -> (found: Option<&FileOrFolder>)
        requires
            self.names_unique(),
            start < names@.len(),
        ensures
            found.is_some() == self.lookup(path_view(names@).skip(start as int)).is_some(),
            found matches Some(item) ==> self.lookup(path_view(names@).skip(start as int)) == Some(
                *item,
            ),
        decreases names@.len() - start,
    {
        let ghost p = path_view(names@).skip(start as int);
        assert(p[0] == names@[start as int]@);
        assert(p.drop_first() =~= path_view(names@).skip(start + 1));
        match self.find_entry(&names[start]) {
            None => None,
            Some(i) => {
                proof {
                    lemma_entries_map_index(self.contents@, i as int);
                }
                let item = &self.contents[i].1;
                if names.len() - start == 1 {
                    Some(item)
                } else {
                    match item {
                        FileOrFolder::Folder(sub) => sub.path_from(names, start + 1),
                        FileOrFolder::File(_) => Some(item),
                    }
                }
            },
        }
    }

    /// The item that `folder_names` leads to below this folder: `None` where
    /// a name is missing; a file met before the last name is returned itself.
    pub fn path(&self, folder_names: Vec<String>) -> (found: Option<&FileOrFolder>)
        requires
            self.names_unique(),
            folder_names@.len() > 0,
        ensures
            found.is_some() == self.lookup(path_view(folder_names@)).is_some(),
            found matches Some(item) ==> self.lookup(path_view(folder_names@)) == Some(*item),
    {
        assert(path_view(folder_names@).skip(0) =~= path_view(folder_names@));
        self.path_from(&folder_names, 0)
    }
}


/// What `path` leads to in a folder before an addition (`None`: a new,
/// empty folder, where nothing is found).
pub open spec fn lookup_before(before: Option<Folder>, path: Seq<Seq<char>>) -> Option<FileOrFolder> {
    match before {
        Some(f) => f.lookup(path),
        None => None,
    }
}

/// Reading back a file just added: the path leads to a file of the size that
/// was added.
pub proof fn lemma_file_added_then_found(
    before: Option<Folder>,
    after: Folder,
    path: Seq<Seq<char>>,
    size: u128,
)
    requires
        file_added(before, after, path, size),
    ensures
        after.lookup(path) == Some(FileOrFolder::File(File { size })),
    decreases path.len(),
{
    if path.len() > 1 {
        match after.children()[path[0]] {
            FileOrFolder::Folder(sub) => {
                lemma_file_added_then_found(
                    subfolder_before(before, path[0]),
                    sub,
                    path.drop_first(),
                    size,
                );
            },
            FileOrFolder::File(_) => {},
        }
    }
}

/// Reading back a folder just added: the path leads to an empty folder.
pub proof fn lemma_folder_added_then_found(before: Option<Folder>, after: Folder, path: Seq<Seq<char>>)
    requires
        folder_added(before, after, path),
    ensures
        after.lookup(path) matches Some(FileOrFolder::Folder(folder)) && folder.is_empty_folder(),
    decreases path.len(),
{
    if path.len() > 1 {
        match after.children()[path[0]] {
            FileOrFolder::Folder(sub) => {
                lemma_folder_added_then_found(subfolder_before(before, path[0]), sub, path.drop_first());
            },
            FileOrFolder::File(_) => {},
        }
    }
}

/// Adding a file leaves every path that parts from it (at index `k`) leading
/// where it led before.
pub proof fn lemma_file_added_elsewhere_unchanged(
    before: Option<Folder>,
    after: Folder,
    path: Seq<Seq<char>>,
    size: u128,
    other: Seq<Seq<char>>,
    k: int,
)
    requires
        file_added(before, after, path, size),
        path_clear(before, path),
        0 <= k < path.len(),
        k < other.len(),
        other[k] != path[k],
        forall|j: int| 0 <= j < k ==> other[j] == path[j],
    ensures
        after.lookup(other) == lookup_before(before, other),
    decreases k,
{
    let name = path[0];
    if k == 0 {
        assert(after.children().remove(name).contains_key(other[0]) == after.children().contains_key(
            other[0],
        ));
        assert(children_before(before).remove(name).contains_key(other[0])
            == children_before(before).contains_key(other[0]));
        if after.children().contains_key(other[0]) {
            assert(after.children()[other[0]] == after.children().remove(name)[other[0]]);
            assert(children_before(before)[other[0]] == children_before(before).remove(name)[other[0]]);
        }
    } else {
        assert(other[0] == name);
        match after.children()[name] {
            FileOrFolder::Folder(sub) => {
                assert(other.drop_first()[k - 1] == other[k]);
                lemma_file_added_elsewhere_unchanged(
                    subfolder_before(before, name),
                    sub,
                    path.drop_first(),
                    size,
                    other.drop_first(),
                    k - 1,
                );
            },
            FileOrFolder::File(_) => {},
        }
    }
}


/// Adding a folder leaves every path that parts from it (at index `k`)
/// leading where it led before.
pub proof fn lemma_folder_added_elsewhere_unchanged(
    before: Option<Folder>,
    after: Folder,
    path: Seq<Seq<char>>,
    other: Seq<Seq<char>>,
    k: int,
)
    requires
        folder_added(before, after, path),
        path_clear(before, path),
        0 <= k < path.len(),
        k < other.len(),
        other[k] != path[k],
        forall|j: int| 0 <= j < k ==> other[j] == path[j],
    ensures
        after.lookup(other) == lookup_before(before, other),
    decreases k,
{
    let name = path[0];
    if k == 0 {
        assert(after.children().remove(name).contains_key(other[0]) == after.children().contains_key(
            other[0],
        ));
        assert(children_before(before).remove(name).contains_key(other[0])
            == children_before(before).contains_key(other[0]));
        if after.children().contains_key(other[0]) {
            assert(after.children()[other[0]] == after.children().remove(name)[other[0]]);
            assert(children_before(before)[other[0]] == children_before(before).remove(name)[other[0]]);
        }
    } else {
        assert(other[0] == name);
        match after.children()[name] {
            FileOrFolder::Folder(sub) => {
                assert(other.drop_first()[k - 1] == other[k]);
                lemma_folder_added_elsewhere_unchanged(
                    subfolder_before(before, name),
                    sub,
                    path.drop_first(),
                    other.drop_first(),
                    k - 1,
                );
            },
            FileOrFolder::File(_) => {},
        }
    }
}

/// A path can take an addition exactly when the path without its last name
/// does not lead to a file.
pub proof fn lemma_path_clear_iff_no_file_before_last(folder: Folder, path: Seq<Seq<char>>)
    requires
        path.len() > 0,
    ensures
        path_clear(Some(folder), path) <==> !(folder.lookup(path.drop_last()) matches Some(
            FileOrFolder::File(_),
        )),
    decreases path.len(),
{
    let prefix = path.drop_last();
    if path.len() == 1 {
        assert(prefix.len() == 0);
        assert(folder.lookup(prefix) is None);
    } else {
        assert(prefix[0] == path[0]);
        if folder.children().contains_key(path[0]) {
            match folder.children()[path[0]] {
                FileOrFolder::Folder(sub) => {
                    if path.len() > 2 {
                        assert(prefix.drop_first() =~= path.drop_first().drop_last());
                        lemma_path_clear_iff_no_file_before_last(sub, path.drop_first());
                        assert(folder.lookup(prefix) == sub.lookup(prefix.drop_first()));
                    } else {
                        assert(folder.lookup(prefix) == Some(FileOrFolder::Folder(sub)));
                        assert(path_clear(Some(sub), path.drop_first()));
                    }
                    assert(path_clear(Some(folder), path) == path_clear(Some(sub), path.drop_first()));
                },
                FileOrFolder::File(file) => {
                    assert(folder.lookup(prefix) == Some(FileOrFolder::File(file)));
                    assert(!path_clear(Some(folder), path));
                },
            }
        } else {
            assert(folder.lookup(prefix) is None);
            assert(path_clear(Some(folder), path));
        }
    }
}

/// In a well-formed folder the item at `i` is found under its name.
proof fn lemma_wf_child(folder: Folder, name: Seq<char>)
    requires
        folder.wf(),
        folder.children().contains_key(name),
    ensures
        exists|i: int|
            0 <= i < folder.contents@.len() && #[trigger] folder.contents@[i].1
                == folder.children()[name],
{
    let i = choose|i: int| 0 <= i < folder.contents@.len() && #[trigger] folder.contents@[i].0@ == name;
    lemma_entries_map_index(folder.contents@, i);
    assert(folder.contents@[i].1 == folder.children()[name]);
}

/// In a well-formed folder nothing below it is counted for more bytes than
/// the folder, and no folder below it has more descendants.
pub proof fn lemma_found_within_folder(folder: Folder, path: Seq<Seq<char>>)
    requires
        folder.wf(),
        folder.lookup(path) is Some,
    ensures
        folder.lookup(path).unwrap().spec_size() <= folder.size,
        folder.lookup(path).unwrap() matches FileOrFolder::Folder(sub) ==> sub.wf()
            && sub.num_descendants <= folder.num_descendants,
    decreases path.len(),
{
    let name = path[0];
    lemma_wf_child(folder, name);
    let i = choose|i: int|
        0 <= i < folder.contents@.len() && #[trigger] folder.contents@[i].1 == folder.children()[name];
    assert(folder.contents@[i].1 == folder.children()[name]);
    if path.len() > 1 {
        match folder.children()[name] {
            FileOrFolder::Folder(sub) => {
                lemma_found_within_folder(sub, path.drop_first());
            },
            FileOrFolder::File(_) => {},
        }
    }
}


/// The bytes that an item is counted for, as a weight.
pub open spec fn size_weight() -> spec_fn(FileOrFolder) -> int {
    |item: FileOrFolder| item.spec_size() as int
}

/// The entries that an item stands for: itself and, for a folder, its
/// descendants.
pub open spec fn count_weight() -> spec_fn(FileOrFolder) -> int {
    |item: FileOrFolder|
        match item {
            FileOrFolder::Folder(folder) => folder.num_descendants + 1,
            FileOrFolder::File(_) => 1,
        }
}

/// The sum of `weight` over the items of `entries`.
pub open spec fn entries_total(
    entries: Seq<(String, FileOrFolder)>,
    weight: spec_fn(FileOrFolder) -> int,
) -> int
    decreases entries.len(),
{
    if entries.len() == 0 {
        0
    } else {
        entries_total(entries.drop_last(), weight) + weight(entries.last().1)
    }
}

/// A folder's bytes, as a tally.
pub open spec fn size_total() -> spec_fn(Folder) -> int {
    |folder: Folder| folder.size as int
}

/// A folder's descendants, as a tally.
pub open spec fn count_total() -> spec_fn(Folder) -> int {
    |folder: Folder| folder.num_descendants as int
}

impl Folder {
    /// The folder's `total` is the sum of `weight` over the items directly
    /// in it, and the same holds of every folder inside it.
    pub open spec fn tallies_with(
        &self,
        weight: spec_fn(FileOrFolder) -> int,
        total: spec_fn(Folder) -> int,
    ) -> bool
        decreases self,
    {
        &&& total(*self) == entries_total(self.contents@, weight)
        &&& forall|i: int|
            0 <= i < self.contents@.len() ==> match #[trigger] self.contents@[i].1 {
                FileOrFolder::Folder(c) => c.tallies_with(weight, total),
                FileOrFolder::File(_) => true,
            }
    }

    /// Every folder's bytes, this one's and those of the folders inside it,
    /// are the sum of the bytes of the items directly in it.
    pub open spec fn sizes_add_up(&self) -> bool {
        self.tallies_with(size_weight(), size_total())
    }

    /// Every folder's descendants, this one's and those of the folders inside
    /// it, are the items directly in it and their own descendants.
    pub open spec fn counts_add_up(&self) -> bool {
        self.tallies_with(count_weight(), count_total())
    }

    /// Both tallies add up.
    pub open spec fn tallies_match(&self) -> bool {
        self.sizes_add_up() && self.counts_add_up()
    }
}

/// Taking the entry at `i` out takes its weight off the total.
proof fn lemma_total_remove(
    entries: Seq<(String, FileOrFolder)>,
    i: int,
    weight: spec_fn(FileOrFolder) -> int,
)
    requires
        0 <= i < entries.len(),
    ensures
        entries_total(entries, weight) == entries_total(entries.remove(i), weight) + weight(
            entries[i].1,
        ),
    decreases entries.len(),
{
    let last = entries.len() - 1;
    if i == last {
        assert(entries.remove(i) =~= entries.drop_last());
    } else {
        let shorter = entries.drop_last();
        lemma_total_remove(shorter, i, weight);
        assert(shorter.remove(i) =~= entries.remove(i).drop_last());
        assert(entries.remove(i).last() == entries.last());
        assert(shorter[i] == entries[i]);
    }
}

/// Taking the entry at `i` out takes its name out of the map.
proof fn lemma_entries_map_remove(entries: Seq<(String, FileOrFolder)>, i: int)
    requires
        names_distinct(entries),
        0 <= i < entries.len(),
    ensures
        names_distinct(entries.remove(i)),
        entries_map(entries.remove(i)) == entries_map(entries).remove(entries[i].0@),
{
    let name = entries[i].0@;
    let removed = entries.remove(i);
    assert forall|a: int| 0 <= a < removed.len() implies #[trigger] removed[a] == entries[if a < i {
        a
    } else {
        a + 1
    }] by {}
    assert(names_distinct(removed)) by {
        assert forall|a: int, b: int|
            0 <= a < removed.len() && 0 <= b < removed.len() && a != b implies #[trigger] removed[a].0@
            != #[trigger] removed[b].0@ by {
            let a2 = if a < i { a } else { a + 1 };
            let b2 = if b < i { b } else { b + 1 };
            assert(removed[a] == entries[a2]);
            assert(removed[b] == entries[b2]);
        }
    }
    let m = entries_map(removed);
    let expected = entries_map(entries).remove(name);
    assert forall|n: Seq<char>| #[trigger] m.contains_key(n) <==> expected.contains_key(n) by {
        if entries_have(removed, n) {
            let a = choose|a: int| 0 <= a < removed.len() && #[trigger] removed[a].0@ == n;
            let a2 = if a < i { a } else { a + 1 };
            assert(removed[a] == entries[a2]);
            assert(a2 != i);
            assert(entries[a2].0@ == n);
        }
        if entries_have(entries, n) && n != name {
            let j = choose|j: int| 0 <= j < entries.len() && #[trigger] entries[j].0@ == n;
            assert(j != i);
            let a = if j < i { j } else { j - 1 };
            assert(removed[a] == entries[j]);
        }
    }
    assert forall|n: Seq<char>| #[trigger] m.contains_key(n) implies m[n] == expected[n] by {
        let a = choose|a: int| 0 <= a < removed.len() && #[trigger] removed[a].0@ == n;
        lemma_entries_map_index(removed, a);
        let a2 = if a < i { a } else { a + 1 };
        assert(removed[a] == entries[a2]);
        lemma_entries_map_index(entries, a2);
    }
    assert(m =~= expected);
}

/// Entries that map the same names to the same items have the same total.
proof fn lemma_total_same_map(
    first: Seq<(String, FileOrFolder)>,
    second: Seq<(String, FileOrFolder)>,
    weight: spec_fn(FileOrFolder) -> int,
)
    requires
        names_distinct(first),
        names_distinct(second),
        entries_map(first) == entries_map(second),
    ensures
        entries_total(first, weight) == entries_total(second, weight),
    decreases first.len(),
{
    if first.len() == 0 {
        if second.len() > 0 {
            lemma_entries_map_index(second, 0);
            lemma_entries_map_empty(first);
            assert(entries_map(first).contains_key(second[0].0@));
        }
    } else {
        let last = first.len() - 1;
        let name = first[last].0@;
        lemma_entries_map_index(first, last);
        assert(entries_map(second).contains_key(name));
        let j = choose|j: int| 0 <= j < second.len() && #[trigger] second[j].0@ == name;
        lemma_entries_map_index(second, j);
        lemma_total_remove(first, last, weight);
        lemma_total_remove(second, j, weight);
        lemma_entries_map_remove(first, last);
        lemma_entries_map_remove(second, j);
        lemma_total_same_map(first.remove(last), second.remove(j), weight);
    }
}

/// Entries whose map is another's with `name` set to `item` total the other's
/// total, less the weight of what `name` held there, plus the weight of `item`.
proof fn lemma_total_after_insert(
    after: Seq<(String, FileOrFolder)>,
    before: Seq<(String, FileOrFolder)>,
    name: Seq<char>,
    item: FileOrFolder,
    weight: spec_fn(FileOrFolder) -> int,
)
    requires
        names_distinct(after),
        names_distinct(before),
        entries_map(after) == entries_map(before).insert(name, item),
    ensures
        entries_total(after, weight) == entries_total(before, weight) - (if entries_map(
            before,
        ).contains_key(name) {
            weight(entries_map(before)[name])
        } else {
            0
        }) + weight(item),
{
    assert(entries_map(after).contains_key(name));
    let i = choose|i: int| 0 <= i < after.len() && #[trigger] after[i].0@ == name;
    lemma_entries_map_index(after, i);
    lemma_total_remove(after, i, weight);
    lemma_entries_map_remove(after, i);
    if entries_map(before).contains_key(name) {
        let j = choose|j: int| 0 <= j < before.len() && #[trigger] before[j].0@ == name;
        lemma_entries_map_index(before, j);
        lemma_total_remove(before, j, weight);
        lemma_entries_map_remove(before, j);
        assert(entries_map(after.remove(i)) =~= entries_map(before.remove(j)));
        lemma_total_same_map(after.remove(i), before.remove(j), weight);
    } else {
        assert(entries_map(after.remove(i)) =~= entries_map(before));
        lemma_total_same_map(after.remove(i), before, weight);
    }
}


/// The entries of a folder before an addition (`None`: a new folder).
pub open spec fn entries_before(before: Option<Folder>) -> Seq<(String, FileOrFolder)> {
    match before {
        Some(f) => f.contents@,
        None => Seq::empty(),
    }
}

/// A folder before an addition is well formed and its tally adds up (a new
/// folder always is).
pub open spec fn sound_before(
    before: Option<Folder>,
    weight: spec_fn(FileOrFolder) -> int,
    total: spec_fn(Folder) -> int,
) -> bool {
    match before {
        Some(f) => f.wf() && f.tallies_with(weight, total),
        None => true,
    }
}

/// Every name of `path` but the last leads to a folder that is already there.
pub open spec fn parents_present(before: Option<Folder>, path: Seq<Seq<char>>) -> bool {
    path.len() == 1 || lookup_before(before, path.drop_last()) matches Some(
        FileOrFolder::Folder(_),
    )
}

/// An empty folder's tallies add up.
pub proof fn lemma_empty_folder_tallies(folder: Folder)
    requires
        folder.is_empty_folder(),
    ensures
        folder.tallies_match(),
{
}

/// A folder inside a well-formed folder is well formed, and its tally adds
/// up where the outer one's does.
proof fn lemma_child_sound(
    folder: Folder,
    name: Seq<char>,
    weight: spec_fn(FileOrFolder) -> int,
    total: spec_fn(Folder) -> int,
)
    requires
        folder.wf(),
        folder.children().contains_key(name),
    ensures
        folder.children()[name] matches FileOrFolder::Folder(sub) ==> sub.wf() && (
        folder.tallies_with(weight, total) ==> sub.tallies_with(weight, total)),
{
    lemma_wf_child(folder, name);
    let i = choose|i: int|
        0 <= i < folder.contents@.len() && #[trigger] folder.contents@[i].1 == folder.children()[name];
    assert(folder.contents@[i].1 == folder.children()[name]);
}

/// What every tally law comes down to: the entries of `after` are those of
/// `before` with `name` set to `item`, every folder among them but `item`
/// comes from `before`, and the total of `after` moved by what `name` held.
proof fn lemma_tally_from_parts(
    before: Option<Folder>,
    after: Folder,
    name: Seq<char>,
    item: FileOrFolder,
    weight: spec_fn(FileOrFolder) -> int,
    total: spec_fn(Folder) -> int,
)
    requires
        sound_before(before, weight, total),
        after.wf(),
        after.children().contains_key(name),
        after.children()[name] == item,
        after.children().remove(name) == children_before(before).remove(name),
        item matches FileOrFolder::Folder(sub) ==> sub.tallies_with(weight, total),
        total(after) == entries_total(entries_before(before), weight) - (if children_before(
            before,
        ).contains_key(name) {
            weight(children_before(before)[name])
        } else {
            0
        }) + weight(item),
    ensures
        after.tallies_with(weight, total),
{
    let bseq = entries_before(before);
    assert(children_before(before) == entries_map(bseq)) by {
        if before is None {
            lemma_entries_map_empty(bseq);
        }
    }
    assert(after.children() =~= children_before(before).insert(name, item)) by {
        assert forall|n: Seq<char>| #[trigger]
            after.children().contains_key(n) <==> children_before(before).insert(
                name,
                item,
            ).contains_key(n) by {
            if n != name {
                assert(after.children().remove(name).contains_key(n) == after.children().contains_key(
                    n,
                ));
                assert(children_before(before).remove(name).contains_key(n) == children_before(
                    before,
                ).contains_key(n));
            }
        }
        assert forall|n: Seq<char>| #[trigger]
            after.children().contains_key(n) implies after.children()[n] == children_before(
            before,
        ).insert(name, item)[n] by {
            if n != name {
                assert(after.children().remove(name)[n] == after.children()[n]);
                assert(children_before(before).remove(name)[n] == children_before(before)[n]);
            }
        }
    }
    lemma_total_after_insert(after.contents@, bseq, name, item, weight);
    assert forall|i: int| 0 <= i < after.contents@.len() implies match #[trigger] after.contents@[i].1 {
        FileOrFolder::Folder(c) => c.tallies_with(weight, total),
        FileOrFolder::File(_) => true,
    } by {
        let n = after.contents@[i].0@;
        lemma_entries_map_index(after.contents@, i);
        if n != name {
            assert(after.children().remove(name)[n] == after.children()[n]);
            assert(children_before(before).remove(name)[n] == children_before(before)[n]);
            assert(children_before(before).contains_key(n));
            if let Some(f) = before {
                lemma_child_sound(f, n, weight, total);
            }
        }
    }
}

/// Before an addition at a name that is still free, the name holds nothing.
proof fn lemma_absent_first(before: Option<Folder>, path: Seq<Seq<char>>)
    requires
        path.len() == 1,
        lookup_before(before, path) is None,
    ensures
        !children_before(before).contains_key(path[0]),
{
    if let Some(f) = before {
        assert(f.lookup(path) is None);
    }
}

/// Adding a file at a path that is still free keeps every folder's bytes
/// the sum of the bytes of its items, whether or not the folders on the way
/// are already there.
pub proof fn lemma_file_added_keeps_sizes(
    before: Option<Folder>,
    after: Folder,
    path: Seq<Seq<char>>,
    size: u128,
)
    requires
        file_added(before, after, path, size),
        after.wf(),
        sound_before(before, size_weight(), size_total()),
        lookup_before(before, path) is None,
        path_clear(before, path),
    ensures
        after.sizes_add_up(),
    decreases path.len(),
{
    let name = path[0];
    let item = after.children()[name];
    let bseq = entries_before(before);
    assert(entries_total(bseq, size_weight()) == size_before(before)) by {
        if before is None {
            assert(bseq.len() == 0);
        }
    }
    lemma_child_sound(after, name, size_weight(), size_total());
    if path.len() == 1 {
        lemma_absent_first(before, path);
        assert(size_weight()(item) == size as int);
    } else {
        let rest = path.drop_first();
        match item {
            FileOrFolder::Folder(sub_after) => {
                let sub_before = subfolder_before(before, name);
                assert(size_weight()(item) == sub_after.size as int);
                assert(file_added(sub_before, sub_after, rest, size));
                assert(rest.len() > 0);
                assert(sub_after.size == size_before(sub_before) + size);
                if children_before(before).contains_key(name) {
                    let f = before.unwrap();
                    match f.children()[name] {
                        FileOrFolder::Folder(sb) => {
                            lemma_child_sound(f, name, size_weight(), size_total());
                            assert(f.lookup(path) == sb.lookup(rest));
                            assert(sub_before == Some(sb));
                            assert(size_weight()(children_before(before)[name]) == sb.size as int);
                        },
                        FileOrFolder::File(_) => {},
                    }
                } else {
                    assert(sub_before is None);
                }
                lemma_file_added_keeps_sizes(sub_before, sub_after, rest, size);
            },
            FileOrFolder::File(_) => {},
        }
    }
    lemma_tally_from_parts(before, after, name, item, size_weight(), size_total());
}

/// Adding a folder at a path that is still free keeps every folder's bytes
/// the sum of the bytes of its items, whether or not the folders on the way
/// are already there.
pub proof fn lemma_folder_added_keeps_sizes(
    before: Option<Folder>,
    after: Folder,
    path: Seq<Seq<char>>,
)
    requires
        folder_added(before, after, path),
        after.wf(),
        sound_before(before, size_weight(), size_total()),
        lookup_before(before, path) is None,
        path_clear(before, path),
    ensures
        after.sizes_add_up(),
    decreases path.len(),
{
    let name = path[0];
    let item = after.children()[name];
    let bseq = entries_before(before);
    assert(entries_total(bseq, size_weight()) == size_before(before)) by {
        if before is None {
            assert(bseq.len() == 0);
        }
    }
    lemma_child_sound(after, name, size_weight(), size_total());
    if path.len() == 1 {
        lemma_absent_first(before, path);
        if let FileOrFolder::Folder(sub) = item {
            lemma_empty_folder_tallies(sub);
            assert(size_weight()(item) == 0);
        }
    } else {
        let rest = path.drop_first();
        match item {
            FileOrFolder::Folder(sub_after) => {
                let sub_before = subfolder_before(before, name);
                assert(size_weight()(item) == sub_after.size as int);
                assert(folder_added(sub_before, sub_after, rest));
                assert(rest.len() > 0);
                assert(sub_after.size == size_before(sub_before));
                if children_before(before).contains_key(name) {
                    let f = before.unwrap();
                    match f.children()[name] {
                        FileOrFolder::Folder(sb) => {
                            lemma_child_sound(f, name, size_weight(), size_total());
                            assert(f.lookup(path) == sb.lookup(rest));
                            assert(sub_before == Some(sb));
                            assert(size_weight()(children_before(before)[name]) == sb.size as int);
                        },
                        FileOrFolder::File(_) => {},
                    }
                } else {
                    assert(sub_before is None);
                }
                lemma_folder_added_keeps_sizes(sub_before, sub_after, rest);
            },
            FileOrFolder::File(_) => {},
        }
    }
    lemma_tally_from_parts(before, after, name, item, size_weight(), size_total());
}

/// Adding a file under folders that are already there, at a name that is
/// still free, keeps every folder's descendants the count of what lies below
/// it.
pub proof fn lemma_file_added_keeps_counts(
    before: Option<Folder>,
    after: Folder,
    path: Seq<Seq<char>>,
    size: u128,
)
    requires
        file_added(before, after, path, size),
        after.wf(),
        sound_before(before, count_weight(), count_total()),
        lookup_before(before, path) is None,
        parents_present(before, path),
    ensures
        after.counts_add_up(),
    decreases path.len(),
{
    let name = path[0];
    let item = after.children()[name];
    let bseq = entries_before(before);
    assert(entries_total(bseq, count_weight()) == descendants_before(before)) by {
        if before is None {
            assert(bseq.len() == 0);
        }
    }
    lemma_child_sound(after, name, count_weight(), count_total());
    if path.len() == 1 {
        lemma_absent_first(before, path);
    } else {
        let f = before.unwrap();
        let prefix = path.drop_last();
        assert(prefix[0] == name);
        assert(f.children().contains_key(name));
        match f.children()[name] {
            FileOrFolder::Folder(sub_before) => {
                lemma_child_sound(f, name, count_weight(), count_total());
                let rest = path.drop_first();
                if path.len() > 2 {
                    assert(prefix.drop_first() =~= rest.drop_last());
                }
                match item {
                    FileOrFolder::Folder(sub_after) => {
                        lemma_file_added_keeps_counts(Some(sub_before), sub_after, rest, size);
                    },
                    FileOrFolder::File(_) => {},
                }
            },
            FileOrFolder::File(file) => {
                assert(f.lookup(prefix) == Some(FileOrFolder::File(file)));
            },
        }
    }
    lemma_tally_from_parts(before, after, name, item, count_weight(), count_total());
}

/// Adding a folder under folders that are already there, at a name that is
/// still free, keeps every folder's descendants the count of what lies below
/// it.
pub proof fn lemma_folder_added_keeps_counts(
    before: Option<Folder>,
    after: Folder,
    path: Seq<Seq<char>>,
)
    requires
        folder_added(before, after, path),
        after.wf(),
        sound_before(before, count_weight(), count_total()),
        lookup_before(before, path) is None,
        parents_present(before, path),
    ensures
        after.counts_add_up(),
    decreases path.len(),
{
    let name = path[0];
    let item = after.children()[name];
    let bseq = entries_before(before);
    assert(entries_total(bseq, count_weight()) == descendants_before(before)) by {
        if before is None {
            assert(bseq.len() == 0);
        }
    }
    lemma_child_sound(after, name, count_weight(), count_total());
    if path.len() == 1 {
        lemma_absent_first(before, path);
        if let FileOrFolder::Folder(sub) = item {
            lemma_empty_folder_tallies(sub);
        }
    } else {
        let f = before.unwrap();
        let prefix = path.drop_last();
        assert(prefix[0] == name);
        assert(f.children().contains_key(name));
        match f.children()[name] {
            FileOrFolder::Folder(sub_before) => {
                lemma_child_sound(f, name, count_weight(), count_total());
                let rest = path.drop_first();
                if path.len() > 2 {
                    assert(prefix.drop_first() =~= rest.drop_last());
                }
                match item {
                    FileOrFolder::Folder(sub_after) => {
                        lemma_folder_added_keeps_counts(Some(sub_before), sub_after, rest);
                    },
                    FileOrFolder::File(_) => {},
                }
            },
            FileOrFolder::File(file) => {
                assert(f.lookup(prefix) == Some(FileOrFolder::File(file)));
            },
        }
    }
    lemma_tally_from_parts(before, after, name, item, count_weight(), count_total());
}

/// A well-formed folder holds no name twice, at any depth.
pub proof fn lemma_wf_names_unique(folder: Folder)
    requires
        folder.wf(),
    ensures
        folder.names_unique(),
    decreases folder,
{
    assert forall|i: int| 0 <= i < folder.contents@.len() implies match #[trigger] folder.contents@[i].1 {
        FileOrFolder::Folder(c) => c.names_unique(),
        FileOrFolder::File(_) => true,
    } by {
        if let FileOrFolder::Folder(c) = folder.contents@[i].1 {
            assert(decreases_to!(folder => folder.contents));
            assert(decreases_to!(folder.contents => folder.contents@));
            assert(decreases_to!(folder.contents@ => folder.contents@[i]));
            assert(decreases_to!(folder.contents@[i] => folder.contents@[i].1));
            lemma_wf_names_unique(c);
        }
    }
}


impl Folder {
    /// The two folders hold the same tree: the same bytes, the same number of
    /// descendants, the same names, and under each name the same file or a
    /// folder holding the same tree (in whatever order the entries are kept).
    pub open spec fn same_tree(&self, other: Folder) -> bool
        decreases self,
    {
        &&& self.size == other.size
        &&& self.num_descendants == other.num_descendants
        &&& self.children().dom() == other.children().dom()
        &&& forall|i: int|
            0 <= i < self.contents@.len() ==> match #[trigger] self.contents@[i].1 {
                FileOrFolder::File(x) => other.children()[self.contents@[i].0@] == FileOrFolder::File(
                    x,
                ),
                FileOrFolder::Folder(x) => match other.children()[self.contents@[i].0@] {
                    FileOrFolder::Folder(y) => x.same_tree(y),
                    FileOrFolder::File(_) => false,
                },
            }
    }
}

/// The two items are the same file, or folders holding the same tree.
pub open spec fn same_item(first: FileOrFolder, second: FileOrFolder) -> bool {
    match first {
        FileOrFolder::File(x) => second == FileOrFolder::File(x),
        FileOrFolder::Folder(x) => match second {
            FileOrFolder::Folder(y) => x.same_tree(y),
            FileOrFolder::File(_) => false,
        },
    }
}

/// Two folders with the same tallies, the same names and the same item
/// under each name hold the same tree.
proof fn lemma_same_tree_intro(first: Folder, second: Folder)
    requires
        names_distinct(first.contents@),
        first.size == second.size,
        first.num_descendants == second.num_descendants,
        first.children().dom() == second.children().dom(),
        forall|n: Seq<char>| #[trigger]
            first.children().contains_key(n) ==> same_item(
                first.children()[n],
                second.children()[n],
            ),
    ensures
        first.same_tree(second),
{
    assert forall|i: int| 0 <= i < first.contents@.len() implies match #[trigger] first.contents@[i].1 {
        FileOrFolder::File(x) => second.children()[first.contents@[i].0@] == FileOrFolder::File(x),
        FileOrFolder::Folder(x) => match second.children()[first.contents@[i].0@] {
            FileOrFolder::Folder(y) => x.same_tree(y),
            FileOrFolder::File(_) => false,
        },
    } by {
        lemma_entries_map_index(first.contents@, i);
        assert(same_item(
            first.children()[first.contents@[i].0@],
            second.children()[first.contents@[i].0@],
        ));
    }
}

/// A folder inside a folder that holds no name twice holds no name twice.
proof fn lemma_child_names_unique(folder: Folder, name: Seq<char>)
    requires
        folder.names_unique(),
        folder.children().contains_key(name),
    ensures
        folder.children()[name] matches FileOrFolder::Folder(sub) ==> sub.names_unique(),
{
    let i = choose|i: int| 0 <= i < folder.contents@.len() && #[trigger] folder.contents@[i].0@ == name;
    lemma_entries_map_index(folder.contents@, i);
}

/// A folder that holds no name twice holds the same tree as itself.
pub proof fn lemma_same_tree_reflexive(folder: Folder)
    requires
        folder.names_unique(),
    ensures
        folder.same_tree(folder),
    decreases folder,
{
    assert forall|i: int| 0 <= i < folder.contents@.len() implies match #[trigger] folder.contents@[i].1 {
        FileOrFolder::File(x) => folder.children()[folder.contents@[i].0@] == FileOrFolder::File(x),
        FileOrFolder::Folder(x) => match folder.children()[folder.contents@[i].0@] {
            FileOrFolder::Folder(y) => x.same_tree(y),
            FileOrFolder::File(_) => false,
        },
    } by {
        lemma_entries_map_index(folder.contents@, i);
        if let FileOrFolder::Folder(c) = folder.contents@[i].1 {
            assert(decreases_to!(folder => folder.contents));
            assert(decreases_to!(folder.contents => folder.contents@));
            assert(decreases_to!(folder.contents@ => folder.contents@[i]));
            assert(decreases_to!(folder.contents@[i] => folder.contents@[i].1));
            lemma_same_tree_reflexive(c);
        }
    }
}

/// An item inside a folder that holds no name twice is the same as itself.
proof fn lemma_same_item_reflexive(folder: Folder, name: Seq<char>)
    requires
        folder.names_unique(),
        folder.children().contains_key(name),
    ensures
        same_item(folder.children()[name], folder.children()[name]),
{
    lemma_child_names_unique(folder, name);
    if let FileOrFolder::Folder(sub) = folder.children()[name] {
        lemma_same_tree_reflexive(sub);
    }
}

/// Outside `name`, `after` holds what `before` held.
proof fn lemma_untouched_name(
    before: Option<Folder>,
    after: Folder,
    name: Seq<char>,
    other: Seq<char>,
)
    requires
        after.children().remove(name) == children_before(before).remove(name),
        other != name,
    ensures
        after.children().contains_key(other) == children_before(before).contains_key(other),
        after.children().contains_key(other) ==> after.children()[other] == children_before(
            before,
        )[other],
{
    assert(after.children().remove(name).contains_key(other) == after.children().contains_key(
        other,
    ));
    assert(children_before(before).remove(name).contains_key(other) == children_before(
        before,
    ).contains_key(other));
    if after.children().contains_key(other) {
        assert(after.children().remove(name)[other] == after.children()[other]);
        assert(children_before(before).remove(name)[other] == children_before(before)[other]);
    }
}

/// Adding a file at a path gives one tree, whatever folder value holds it:
/// two results of the same addition to the same folder hold the same tree.
pub proof fn lemma_file_added_determined(
    before: Option<Folder>,
    first: Folder,
    second: Folder,
    path: Seq<Seq<char>>,
    size: u128,
)
    requires
        file_added(before, first, path, size),
        file_added(before, second, path, size),
        first.names_unique(),
        second.names_unique(),
    ensures
        first.same_tree(second),
    decreases path.len(),
{
    let name = path[0];
    assert forall|n: Seq<char>| #[trigger] first.children().contains_key(n) implies same_item(
        first.children()[n],
        second.children()[n],
    ) by {
        if n != name {
            lemma_untouched_name(before, first, name, n);
            lemma_untouched_name(before, second, name, n);
            lemma_same_item_reflexive(first, n);
        } else if path.len() > 1 {
            lemma_child_names_unique(first, name);
            lemma_child_names_unique(second, name);
            if let FileOrFolder::Folder(x) = first.children()[name] {
                if let FileOrFolder::Folder(y) = second.children()[name] {
                    lemma_file_added_determined(
                        subfolder_before(before, name),
                        x,
                        y,
                        path.drop_first(),
                        size,
                    );
                }
            }
        }
    }
    assert(first.children().dom() =~= second.children().dom()) by {
        assert forall|n: Seq<char>| first.children().contains_key(n) <==> second.children().contains_key(
            n,
        ) by {
            if n != name {
                lemma_untouched_name(before, first, name, n);
                lemma_untouched_name(before, second, name, n);
            }
        }
    }
    lemma_same_tree_intro(first, second);
}

/// Adding a folder at a path gives one tree, whatever folder value holds it:
/// two results of the same addition to the same folder hold the same tree.
pub proof fn lemma_folder_added_determined(
    before: Option<Folder>,
    first: Folder,
    second: Folder,
    path: Seq<Seq<char>>,
)
    requires
        folder_added(before, first, path),
        folder_added(before, second, path),
        first.names_unique(),
        second.names_unique(),
    ensures
        first.same_tree(second),
    decreases path.len(),
{
    let name = path[0];
    assert forall|n: Seq<char>| #[trigger] first.children().contains_key(n) implies same_item(
        first.children()[n],
        second.children()[n],
    ) by {
        if n != name {
            lemma_untouched_name(before, first, name, n);
            lemma_untouched_name(before, second, name, n);
            lemma_same_item_reflexive(first, n);
        } else {
            lemma_child_names_unique(first, name);
            lemma_child_names_unique(second, name);
            if let FileOrFolder::Folder(x) = first.children()[name] {
                if let FileOrFolder::Folder(y) = second.children()[name] {
                    if path.len() > 1 {
                        lemma_folder_added_determined(
                            subfolder_before(before, name),
                            x,
                            y,
                            path.drop_first(),
                        );
                    } else {
                        lemma_entries_map_empty(x.contents@);
                        lemma_entries_map_empty(y.contents@);
                        lemma_same_tree_intro(x, y);
                    }
                }
            }
        }
    }
    assert(first.children().dom() =~= second.children().dom()) by {
        assert forall|n: Seq<char>| first.children().contains_key(n) <==> second.children().contains_key(
            n,
        ) by {
            if n != name {
                lemma_untouched_name(before, first, name, n);
                lemma_untouched_name(before, second, name, n);
            }
        }
    }
    lemma_same_tree_intro(first, second);
}

/// Outside the names `first_name` and `second_name`, the results of two
/// additions in a row to folders holding the same tree hold the same items.
proof fn lemma_same_untouched_twice(
    first_before: Option<Folder>,
    first_middle: Folder,
    first_after: Folder,
    second_before: Option<Folder>,
    second_middle: Folder,
    second_after: Folder,
    first_name: Seq<char>,
    second_name: Seq<char>,
    other: Seq<char>,
)
    requires
        same_before(first_before, second_before),
        first_middle.children().remove(first_name) == children_before(first_before).remove(
            first_name,
        ),
        first_after.children().remove(second_name) == first_middle.children().remove(second_name),
        second_middle.children().remove(second_name) == children_before(second_before).remove(
            second_name,
        ),
        second_after.children().remove(first_name) == second_middle.children().remove(first_name),
        other != first_name,
        other != second_name,
    ensures
        first_after.children().contains_key(other) == second_after.children().contains_key(other),
        first_after.children().contains_key(other) ==> same_item(
            first_after.children()[other],
            second_after.children()[other],
        ),
{
    lemma_untouched_name(first_before, first_middle, first_name, other);
    lemma_untouched_name(Some(first_middle), first_after, second_name, other);
    lemma_untouched_name(second_before, second_middle, second_name, other);
    lemma_untouched_name(Some(second_middle), second_after, first_name, other);
    if let Some(x) = first_before {
        let y = second_before.unwrap();
        if x.children().contains_key(other) {
            lemma_same_tree_child(x, y, other);
        }
        assert(x.children().dom() == y.children().dom());
        assert(x.children().contains_key(other) == y.children().contains_key(other));
    }
}

/// Files added at two paths that part (at index `k`, so neither is a prefix
/// of the other) give the same tree in either order, also where the two
/// orders start from different folders holding the same tree (a folder and
/// its copy); from one folder holding no name twice, `same_before` holds by
/// `lemma_same_tree_reflexive`.
pub proof fn lemma_files_added_commute(
    first_before: Option<Folder>,
    second_before: Option<Folder>,
    first_path: Seq<Seq<char>>,
    first_size: u128,
    second_path: Seq<Seq<char>>,
    second_size: u128,
    first_then: Folder,
    first_then_second: Folder,
    second_then: Folder,
    second_then_first: Folder,
    k: int,
)
    requires
        same_before(first_before, second_before),
        0 <= k < first_path.len(),
        k < second_path.len(),
        first_path[k] != second_path[k],
        forall|j: int| 0 <= j < k ==> first_path[j] == second_path[j],
        file_added(first_before, first_then, first_path, first_size),
        file_added(Some(first_then), first_then_second, second_path, second_size),
        file_added(second_before, second_then, second_path, second_size),
        file_added(Some(second_then), second_then_first, first_path, first_size),
        first_then.names_unique(),
        first_then_second.names_unique(),
        second_then.names_unique(),
        second_then_first.names_unique(),
    ensures
        first_then_second.same_tree(second_then_first),
    decreases k,
{
    let p0 = first_path[0];
    let q0 = second_path[0];
    let a = first_then_second;
    let b = second_then_first;
    if k == 0 {
        lemma_untouched_name(Some(first_then), a, q0, p0);
        lemma_untouched_name(Some(second_then), b, p0, q0);
        lemma_untouched_name(second_before, second_then, q0, p0);
        lemma_untouched_name(first_before, first_then, p0, q0);
        assert(subfolder_before(Some(second_then), p0) == subfolder_before(second_before, p0));
        assert(subfolder_before(Some(first_then), q0) == subfolder_before(first_before, q0));
        lemma_same_subfolder_before(first_before, second_before, p0);
        lemma_same_subfolder_before(first_before, second_before, q0);
        assert forall|n: Seq<char>| #[trigger] a.children().contains_key(n) implies same_item(
            a.children()[n],
            b.children()[n],
        ) by {
            if n == p0 {
                if first_path.len() > 1 {
                    lemma_child_names_unique(a, p0);
                    lemma_child_names_unique(b, p0);
                    if let FileOrFolder::Folder(x) = a.children()[p0] {
                        if let FileOrFolder::Folder(y) = b.children()[p0] {
                            lemma_file_added_congruent(
                                subfolder_before(first_before, p0),
                                subfolder_before(second_before, p0),
                                x,
                                y,
                                first_path.drop_first(),
                                first_size,
                            );
                        }
                    }
                }
            } else if n == q0 {
                if second_path.len() > 1 {
                    lemma_child_names_unique(a, q0);
                    lemma_child_names_unique(b, q0);
                    if let FileOrFolder::Folder(x) = a.children()[q0] {
                        if let FileOrFolder::Folder(y) = b.children()[q0] {
                            lemma_file_added_congruent(
                                subfolder_before(first_before, q0),
                                subfolder_before(second_before, q0),
                                x,
                                y,
                                second_path.drop_first(),
                                second_size,
                            );
                        }
                    }
                }
            } else {
                lemma_same_untouched_twice(
                    first_before,
                    first_then,
                    a,
                    second_before,
                    second_then,
                    b,
                    p0,
                    q0,
                    n,
                );
            }
        }
        assert(a.children().dom() =~= b.children().dom()) by {
            assert forall|n: Seq<char>| a.children().contains_key(n) <==> b.children().contains_key(
                n,
            ) by {
                if n != p0 && n != q0 {
                    lemma_same_untouched_twice(
                        first_before,
                        first_then,
                        a,
                        second_before,
                        second_then,
                        b,
                        p0,
                        q0,
                        n,
                    );
                }
            }
        }
    } else {
        let name = p0;
        assert(q0 == name);
        assert(first_path.drop_first()[k - 1] == first_path[k]);
        assert(second_path.drop_first()[k - 1] == second_path[k]);
        lemma_child_names_unique(first_then, name);
        lemma_child_names_unique(second_then, name);
        lemma_child_names_unique(a, name);
        lemma_child_names_unique(b, name);
        lemma_same_subfolder_before(first_before, second_before, name);
        assert forall|n: Seq<char>| #[trigger] a.children().contains_key(n) implies same_item(
            a.children()[n],
            b.children()[n],
        ) by {
            if n == name {
                if let FileOrFolder::Folder(x1) = first_then.children()[name] {
                    if let FileOrFolder::Folder(y1) = second_then.children()[name] {
                        if let FileOrFolder::Folder(x2) = a.children()[name] {
                            if let FileOrFolder::Folder(y2) = b.children()[name] {
                                lemma_files_added_commute(
                                    subfolder_before(first_before, name),
                                    subfolder_before(second_before, name),
                                    first_path.drop_first(),
                                    first_size,
                                    second_path.drop_first(),
                                    second_size,
                                    x1,
                                    x2,
                                    y1,
                                    y2,
                                    k - 1,
                                );
                            }
                        }
                    }
                }
            } else {
                lemma_same_untouched_twice(
                    first_before,
                    first_then,
                    a,
                    second_before,
                    second_then,
                    b,
                    name,
                    name,
                    n,
                );
            }
        }
        assert(a.children().dom() =~= b.children().dom()) by {
            assert forall|n: Seq<char>| a.children().contains_key(n) <==> b.children().contains_key(
                n,
            ) by {
                if n != name {
                    lemma_same_untouched_twice(
                        first_before,
                        first_then,
                        a,
                        second_before,
                        second_then,
                        b,
                        name,
                        name,
                        n,
                    );
                }
            }
        }
    }
    lemma_same_tree_intro(a, b);
}


impl Folder {
    /// Entry by entry, this folder holds the same names as `other`, the same
    /// files and copies of its folders, with the same tallies.
    pub open spec fn is_copy_of(&self, other: Folder) -> bool
        decreases self,
    {
        &&& self.size == other.size
        &&& self.num_descendants == other.num_descendants
        &&& self.contents@.len() == other.contents@.len()
        &&& forall|i: int|
            0 <= i < self.contents@.len() ==> #[trigger] self.contents@[i].0 == other.contents@[i].0
                && match self.contents@[i].1 {
                FileOrFolder::File(x) => other.contents@[i].1 == FileOrFolder::File(x),
                FileOrFolder::Folder(x) => match other.contents@[i].1 {
                    FileOrFolder::Folder(y) => x.is_copy_of(y),
                    FileOrFolder::File(_) => false,
                },
            }
    }
}

/// `copy` is the same file as `original`, or a folder that is a copy of it.
pub open spec fn item_is_copy_of(copy: FileOrFolder, original: FileOrFolder) -> bool {
    match copy {
        FileOrFolder::File(x) => original == FileOrFolder::File(x),
        FileOrFolder::Folder(x) => match original {
            FileOrFolder::Folder(y) => x.is_copy_of(y),
            FileOrFolder::File(_) => false,
        },
    }
}

impl Clone for FileOrFolder {
    /// The same file, or a copy of the folder.
    fn clone(&self) -> (copy: Self)
        ensures
            item_is_copy_of(copy, *self),
        decreases self,
    {
        match self {
            FileOrFolder::Folder(folder) => FileOrFolder::Folder(folder.clone()),
            FileOrFolder::File(file) => FileOrFolder::File(File { size: file.size }),
        }
    }
}

impl Clone for Folder {
    /// A copy of the folder: the same names in the same order, the same
    /// files, copies of the folders inside, the same tallies.
    fn clone(&self) -> (copy: Self)
        ensures
            copy.is_copy_of(*self),
        decreases self,
    {
        let mut contents: Vec<(String, FileOrFolder)> = Vec::new();
        let mut i: usize = 0;
        while i < self.contents.len()
            invariant
                i <= self.contents@.len(),
                contents@.len() == i,
                forall|j: int|
                    0 <= j < i ==> #[trigger] contents@[j].0 == self.contents@[j].0
                        && item_is_copy_of(contents@[j].1, self.contents@[j].1),
            decreases self.contents@.len() - i,
        {
            let entry = &self.contents[i];
            contents.push((entry.0.clone(), entry.1.clone()));
            i = i + 1;
        }
        Folder { contents, size: self.size, num_descendants: self.num_descendants }
    }
}

/// A copy of a folder that holds no name twice holds no name twice, and the
/// same tree; the copy of a well-formed folder is well formed.
pub proof fn lemma_copy_same_tree(copy: Folder, original: Folder)
    requires
        copy.is_copy_of(original),
        original.names_unique(),
    ensures
        copy.names_unique(),
        copy.same_tree(original),
        original.wf() ==> copy.wf(),
    decreases copy,
{
    assert(names_distinct(copy.contents@)) by {
        assert forall|a: int, b: int|
            0 <= a < copy.contents@.len() && 0 <= b < copy.contents@.len() && a != b implies #[trigger] copy.contents@[a].0@
            != #[trigger] copy.contents@[b].0@ by {
            assert(copy.contents@[a].0 == original.contents@[a].0);
            assert(copy.contents@[b].0 == original.contents@[b].0);
        }
    }
    assert forall|i: int| 0 <= i < copy.contents@.len() implies {
        &&& match #[trigger] copy.contents@[i].1 {
            FileOrFolder::Folder(c) => c.names_unique(),
            FileOrFolder::File(_) => true,
        }
        &&& original.wf() ==> match copy.contents@[i].1 {
            FileOrFolder::Folder(c) => {
                &&& c.size <= copy.size
                &&& c.num_descendants <= copy.num_descendants
                &&& c.wf()
            },
            FileOrFolder::File(f) => f.size <= copy.size,
        }
        &&& match copy.contents@[i].1 {
            FileOrFolder::File(x) => original.children()[copy.contents@[i].0@] == FileOrFolder::File(x),
            FileOrFolder::Folder(x) => match original.children()[copy.contents@[i].0@] {
                FileOrFolder::Folder(y) => x.same_tree(y),
                FileOrFolder::File(_) => false,
            },
        }
    } by {
        assert(copy.contents@[i].0 == original.contents@[i].0);
        lemma_entries_map_index(original.contents@, i);
        if let FileOrFolder::Folder(c) = copy.contents@[i].1 {
            if let FileOrFolder::Folder(o) = original.contents@[i].1 {
                assert(decreases_to!(copy => copy.contents));
                assert(decreases_to!(copy.contents => copy.contents@));
                assert(decreases_to!(copy.contents@ => copy.contents@[i]));
                assert(decreases_to!(copy.contents@[i] => copy.contents@[i].1));
                lemma_copy_same_tree(c, o);
            }
        }
    }
    assert(copy.children().dom() =~= original.children().dom()) by {
        assert forall|n: Seq<char>| copy.children().contains_key(n) <==> original.children().contains_key(
            n,
        ) by {
            if entries_have(copy.contents@, n) {
                let i = choose|i: int| 0 <= i < copy.contents@.len() && #[trigger] copy.contents@[i].0@ == n;
                assert(copy.contents@[i].0 == original.contents@[i].0);
            }
            if entries_have(original.contents@, n) {
                let i = choose|i: int| 0 <= i < original.contents@.len() && #[trigger] original.contents@[i].0@ == n;
                assert(copy.contents@[i].0 == original.contents@[i].0);
            }
        }
    }
}


/// Two folders before an addition hold the same tree, each with no name
/// twice (or both are folders that the addition creates).
pub open spec fn same_before(first: Option<Folder>, second: Option<Folder>) -> bool {
    match first {
        Some(x) => match second {
            Some(y) => x.names_unique() && y.names_unique() && x.same_tree(y),
            None => false,
        },
        None => second is None,
    }
}

/// Under each name, folders holding the same tree hold the same item.
proof fn lemma_same_tree_child(first: Folder, second: Folder, name: Seq<char>)
    requires
        first.names_unique(),
        first.same_tree(second),
        first.children().contains_key(name),
    ensures
        second.children().contains_key(name),
        same_item(first.children()[name], second.children()[name]),
{
    let i = choose|i: int| 0 <= i < first.contents@.len() && #[trigger] first.contents@[i].0@ == name;
    lemma_entries_map_index(first.contents@, i);
}

/// The same name leads to folders before an addition that hold the same
/// tree, where it leads from two that do.
proof fn lemma_same_subfolder_before(
    first: Option<Folder>,
    second: Option<Folder>,
    name: Seq<char>,
)
    requires
        same_before(first, second),
    ensures
        same_before(subfolder_before(first, name), subfolder_before(second, name)),
{
    if let Some(x) = first {
        let y = second.unwrap();
        if x.children().contains_key(name) {
            lemma_same_tree_child(x, y, name);
            lemma_child_names_unique(x, name);
            lemma_child_names_unique(y, name);
        } else {
            assert(!y.children().contains_key(name));
        }
    }
}

/// Outside `name`, two results of additions to folders holding the same
/// tree hold the same items.
proof fn lemma_same_untouched(
    first_before: Option<Folder>,
    second_before: Option<Folder>,
    first: Folder,
    second: Folder,
    name: Seq<char>,
    other: Seq<char>,
)
    requires
        same_before(first_before, second_before),
        first.children().remove(name) == children_before(first_before).remove(name),
        second.children().remove(name) == children_before(second_before).remove(name),
        other != name,
    ensures
        first.children().contains_key(other) == second.children().contains_key(other),
        first.children().contains_key(other) ==> same_item(
            first.children()[other],
            second.children()[other],
        ),
{
    lemma_untouched_name(first_before, first, name, other);
    lemma_untouched_name(second_before, second, name, other);
    if let Some(x) = first_before {
        let y = second_before.unwrap();
        if x.children().contains_key(other) {
            lemma_same_tree_child(x, y, other);
        }
        assert(x.children().dom() == y.children().dom());
        assert(x.children().contains_key(other) == y.children().contains_key(other));
    }
}

/// The same file added at the same path to folders holding the same tree
/// gives folders holding the same tree (so adding to a copy and adding to
/// the original agree).
pub proof fn lemma_file_added_congruent(
    first_before: Option<Folder>,
    second_before: Option<Folder>,
    first: Folder,
    second: Folder,
    path: Seq<Seq<char>>,
    size: u128,
)
    requires
        same_before(first_before, second_before),
        file_added(first_before, first, path, size),
        file_added(second_before, second, path, size),
        first.names_unique(),
        second.names_unique(),
    ensures
        first.same_tree(second),
    decreases path.len(),
{
    let name = path[0];
    assert forall|n: Seq<char>| #[trigger] first.children().contains_key(n) implies same_item(
        first.children()[n],
        second.children()[n],
    ) by {
        if n != name {
            lemma_same_untouched(first_before, second_before, first, second, name, n);
        } else if path.len() > 1 {
            lemma_child_names_unique(first, name);
            lemma_child_names_unique(second, name);
            lemma_same_subfolder_before(first_before, second_before, name);
            if let FileOrFolder::Folder(x) = first.children()[name] {
                if let FileOrFolder::Folder(y) = second.children()[name] {
                    lemma_file_added_congruent(
                        subfolder_before(first_before, name),
                        subfolder_before(second_before, name),
                        x,
                        y,
                        path.drop_first(),
                        size,
                    );
                }
            }
        }
    }
    assert(first.children().dom() =~= second.children().dom()) by {
        assert forall|n: Seq<char>| first.children().contains_key(n) <==> second.children().contains_key(
            n,
        ) by {
            if n != name {
                lemma_same_untouched(first_before, second_before, first, second, name, n);
            }
        }
    }
    lemma_same_tree_intro(first, second);
}

/// The same folder added at the same path to folders holding the same tree
/// gives folders holding the same tree (so adding to a copy and adding to
/// the original agree).
pub proof fn lemma_folder_added_congruent(
    first_before: Option<Folder>,
    second_before: Option<Folder>,
    first: Folder,
    second: Folder,
    path: Seq<Seq<char>>,
)
    requires
        same_before(first_before, second_before),
        folder_added(first_before, first, path),
        folder_added(second_before, second, path),
        first.names_unique(),
        second.names_unique(),
    ensures
        first.same_tree(second),
    decreases path.len(),
{
    let name = path[0];
    assert forall|n: Seq<char>| #[trigger] first.children().contains_key(n) implies same_item(
        first.children()[n],
        second.children()[n],
    ) by {
        if n != name {
            lemma_same_untouched(first_before, second_before, first, second, name, n);
        } else {
            lemma_child_names_unique(first, name);
            lemma_child_names_unique(second, name);
            lemma_same_subfolder_before(first_before, second_before, name);
            if let FileOrFolder::Folder(x) = first.children()[name] {
                if let FileOrFolder::Folder(y) = second.children()[name] {
                    if path.len() > 1 {
                        lemma_folder_added_congruent(
                            subfolder_before(first_before, name),
                            subfolder_before(second_before, name),
                            x,
                            y,
                            path.drop_first(),
                        );
                    } else {
                        lemma_entries_map_empty(x.contents@);
                        lemma_entries_map_empty(y.contents@);
                        lemma_same_tree_intro(x, y);
                    }
                }
            }
        }
    }
    assert(first.children().dom() =~= second.children().dom()) by {
        assert forall|n: Seq<char>| first.children().contains_key(n) <==> second.children().contains_key(
            n,
        ) by {
            if n != name {
                lemma_same_untouched(first_before, second_before, first, second, name, n);
            }
        }
    }
    lemma_same_tree_intro(first, second);
}


/// From folders holding the same tree, a path can take an addition from
/// both or from neither.
pub proof fn lemma_same_tree_path_clear(
    first: Option<Folder>,
    second: Option<Folder>,
    path: Seq<Seq<char>>,
)
    requires
        same_before(first, second),
    ensures
        path_clear(first, path) == path_clear(second, path),
    decreases path.len(),
{
    if path.len() > 1 {
        if let Some(x) = first {
            let y = second.unwrap();
            if x.children().contains_key(path[0]) {
                lemma_same_tree_child(x, y, path[0]);
                lemma_same_subfolder_before(first, second, path[0]);
                lemma_same_tree_path_clear(
                    subfolder_before(first, path[0]),
                    subfolder_before(second, path[0]),
                    path.drop_first(),
                );
            } else {
                assert(!y.children().contains_key(path[0]));
            }
        }
    }
}


/// In a well-formed folder, room at the top is room all along any path.
pub proof fn lemma_room_from_wf(folder: Folder, path: Seq<Seq<char>>, size: u128)
    requires
        folder.wf(),
        folder.size + size <= u128::MAX,
        folder.num_descendants < u64::MAX,
    ensures
        room_along(Some(folder), path, size),
    decreases path.len(),
{
    if path.len() > 1 {
        if folder.children().contains_key(path[0]) {
            lemma_wf_child(folder, path[0]);
            let i = choose|i: int|
                0 <= i < folder.contents@.len() && #[trigger] folder.contents@[i].1
                    == folder.children()[path[0]];
            assert(folder.contents@[i].1 == folder.children()[path[0]]);
            if let FileOrFolder::Folder(sub) = folder.children()[path[0]] {
                lemma_room_from_wf(sub, path.drop_first(), size);
            } else {
                lemma_room_in_new(path.drop_first(), size);
            }
        } else {
            lemma_room_in_new(path.drop_first(), size);
        }
    }
}

} // verus!

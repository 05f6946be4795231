//! Finding duplicate files: candidates are grouped by size, then by a hash of their first
//! and last 4 KiB, then by a hash of their whole content.
use vstd::prelude::*;
use std::collections::HashMap;
use crate::text::{hex_lower, hex_string, same_text};
use crate::grouping::{
    add_all, distinct_multiples, first_keys, grouping, is_grouping, key_index, keys_of,
    lemma_add_all_keeps, lemma_first_keys_contains, lemma_first_keys_distinct,
    lemma_first_keys_push, lemma_grouping_distinct, lemma_grouping_keeps_every_item,
    lemma_grouping_keyed, lemma_grouping_push, lemma_key_index, lemma_merge_all_keeps,
    lemma_merge_all_keyed, lemma_multiples_keep, lemma_multiples_keyed, lemma_multiples_push,
    lemma_multiples_total, lemma_select_absent, lemma_select_push, lemma_total_push,
    lemma_total_take, members_keyed, merge_all, multiples, select, total, lemma_add_all_origin,
    lemma_grouping_origin, lemma_multiples_origin, lemma_merge_all_together, lemma_multiples_together,
    lemma_same_key_together, together, lemma_same_key_same_group, lemma_multiples_keeps_large,
    lemma_add_all_together, lemma_add_all_keeps_together, lemma_grouping_partitions, members_multiset,
};

verus! {

/// A file found while scanning: its path, its size in bytes, and its first and last 4 KiB.
pub struct FileInfo {
    pub path: String,
    pub size: u64,
    pub first_and_last_4kb: [u8; 8192],
}

impl FileInfo {
    /// The first 4 KiB of the file followed by its last 4 KiB.
    pub open spec fn sample(&self) -> Seq<u8> {
        self.first_and_last_4kb@
    }

    /// A file record.
    pub fn new(path: String, size: u64, first_and_last_4kb: [u8; 8192]) -> (f: Self)
        ensures
            f.path == path,
            f.size == size,
            f.sample() == first_and_last_4kb@,
    {
        FileInfo { path, size, first_and_last_4kb }
    }
}

/// Files of one size.
pub struct SizeGroup {
    pub size: u64,
    pub files: Vec<FileInfo>,
}

/// Files that share a hash.
pub struct HashGroup {
    pub hash: String,
    pub files: Vec<FileInfo>,
}

/// A file's size.
pub open spec fn size_key() -> spec_fn(FileInfo) -> u64 {
    |f: FileInfo| f.size
}

/// The sizes of the files.
pub open spec fn sizes_of(files: Seq<FileInfo>) -> Seq<u64> {
    files.map_values(size_key())
}

/// The size each group is for.
pub open spec fn size_keys(groups: Seq<SizeGroup>) -> Seq<u64> {
    groups.map_values(|g: SizeGroup| g.size)
}

/// The files of each size group.
pub open spec fn size_members(groups: Seq<SizeGroup>) -> Seq<Seq<FileInfo>> {
    groups.map_values(|g: SizeGroup| g.files@)
}

/// Size groups as pairs of a size and its files.
pub open spec fn size_entries(groups: Seq<SizeGroup>) -> Seq<(u64, Seq<FileInfo>)> {
    groups.map_values(|g: SizeGroup| (g.size, g.files@))
}

/// Hash groups as pairs of a hash text and its files.
pub open spec fn hash_entries(groups: Seq<HashGroup>) -> Seq<(Seq<char>, Seq<FileInfo>)> {
    groups.map_values(|g: HashGroup| (g.hash@, g.files@))
}

/// Groups files by size: one group per size, in the order the sizes first occur, each holding
/// the files of that size in the order they came.
pub fn find_same_size_files_recursive_parallel(files: Vec<FileInfo>) -> (groups: Vec<SizeGroup>)
    ensures
        size_entries(groups@) == grouping(sizes_of(files@), files@),
{
    let ghost all = files@;
    let mut groups: Vec<SizeGroup> = Vec::new();
    let mut index: HashMap<u64, usize> = HashMap::new();
    proof {
        assert(all.take(0) =~= Seq::<FileInfo>::empty());
        assert(sizes_of(Seq::<FileInfo>::empty()) =~= Seq::<u64>::empty());
        assert(size_keys(groups@) =~= Seq::<u64>::empty());
        assert(size_members(groups@) =~= Seq::<Seq<FileInfo>>::empty());
    }
    for f in it: files.into_iter()
        invariant
            it.seq() == all,
            is_grouping(
                sizes_of(all.take(it.index() as int)),
                all.take(it.index() as int),
                size_keys(groups@),
                size_members(groups@),
            ),
            forall|k: u64| #[trigger] index@.contains_key(k) <==> size_keys(groups@).contains(k),
            forall|k: u64| index@.contains_key(k) ==> (#[trigger] index@[k]) < groups@.len() && groups@[index@[k] as int].size == k,
    {
        let ghost done = all.take(it.index() as int);
        let ghost before = groups@;
        let k = f.size;
        proof {
            assert(all.take(it.index() + 1) =~= done.push(f));
            assert(sizes_of(done.push(f)) =~= sizes_of(done).push(k));
            lemma_first_keys_push(sizes_of(done), k);
        }
        match index.get(&k) {
            Some(g) => {
                let g = *g;
                groups[g].files.push(f);
                proof {
                    let gi = g as int;
                    assert(groups@.len() == before.len());
                    assert(groups@[gi].files@ == before[gi].files@.push(f));
                    assert(groups@[gi].size == before[gi].size);
                    assert(forall|h: int| 0 <= h < before.len() && h != gi ==> groups@[h] == before[h]);
                    assert(size_keys(groups@) =~= size_keys(before));
                    lemma_first_keys_distinct(sizes_of(done));
                    assert forall|h: int| 0 <= h < groups@.len() implies #[trigger] size_members(groups@)[h]
                        == select(sizes_of(done.push(f)), done.push(f), size_keys(groups@)[h]) by {
                        let key = size_keys(before)[h];
                        lemma_select_push(sizes_of(done), done, k, f, key);
                        assert(size_members(before)[h] == select(sizes_of(done), done, key));
                        assert(size_members(before)[h] == before[h].files@);
                        assert(size_members(groups@)[h] == groups@[h].files@);
                        assert(size_keys(groups@)[h] == key);
                        if h == gi {
                            assert(before[h].size == k);
                        } else {
                            assert(size_keys(before)[gi] == k);
                            assert(key == before[h].size);
                            assert(key != k);
                        }
                    }
                }
            },
            None => {
                let pos = groups.len();
                let mut v: Vec<FileInfo> = Vec::new();
                v.push(f);
                groups.push(SizeGroup { size: k, files: v });
                index.insert(k, pos);
                proof {
                    let n = before.len() as int;
                    assert(!size_keys(before).contains(k));
                    assert(groups@ == before.push(SizeGroup { size: k, files: v }));
                    assert(size_keys(groups@) =~= size_keys(before).push(k));
                    lemma_first_keys_contains(sizes_of(done), k);
                    lemma_select_absent(sizes_of(done), done, k);
                    assert forall|h: int| 0 <= h < groups@.len() implies #[trigger] size_members(groups@)[h]
                        == select(sizes_of(done.push(f)), done.push(f), size_keys(groups@)[h]) by {
                        let key = size_keys(groups@)[h];
                        lemma_select_push(sizes_of(done), done, k, f, key);
                        assert(size_members(groups@)[h] == groups@[h].files@);
                        if h < n {
                            assert(groups@[h] == before[h]);
                            assert(size_keys(before)[h] == key);
                            assert(size_members(before)[h] == before[h].files@);
                            assert(size_members(before)[h] == select(sizes_of(done), done, key));
                            assert(size_keys(before).contains(key));
                            assert(key != k);
                        } else {
                            assert(key == k);
                            assert(groups@[h].files@ =~= Seq::<FileInfo>::empty().push(f));
                        }
                    }
                    assert forall|q: u64| #[trigger] index@.contains_key(q) <==> size_keys(groups@).contains(q) by {
                        if q != k {
                            if size_keys(groups@).contains(q) {
                                let h = choose|h: int| 0 <= h < size_keys(groups@).len() && size_keys(groups@)[h] == q;
                                assert(h < n);
                                assert(size_keys(before)[h] == q);
                                assert(size_keys(before).contains(q));
                            }
                            if size_keys(before).contains(q) {
                                let h = choose|h: int| 0 <= h < size_keys(before).len() && size_keys(before)[h] == q;
                                assert(size_keys(groups@)[h] == q);
                            }
                        } else {
                            assert(size_keys(groups@)[n] == k);
                        }
                    }
                    assert forall|q: u64| index@.contains_key(q) implies (#[trigger] index@[q]) < groups@.len()
                        && groups@[index@[q] as int].size == q by {
                        if q != k {
                            assert(groups@[index@[q] as int] == before[index@[q] as int]);
                        }
                    }
                }
            },
        }
    }
    proof {
        assert(all.take(all.len() as int) =~= all);
        let keys = sizes_of(all);
        assert forall|g: int| 0 <= g < groups@.len() implies #[trigger] size_entries(groups@)[g]
            == grouping(keys, all)[g] by {
            assert(size_members(groups@)[g] == select(keys, all, size_keys(groups@)[g]));
        }
        assert(size_entries(groups@) =~= grouping(keys, all));
    }
    groups
}

/// Keeps the size groups that hold at least two files, in order, and counts the files they hold.
pub fn keep_size_duplicates(groups: Vec<SizeGroup>) -> (res: (Vec<SizeGroup>, u64))
    requires
        total(size_entries(groups@)) <= u64::MAX,
    ensures
        size_entries(res.0@) == multiples(size_entries(groups@)),
        res.1 == total(size_entries(res.0@)),
{
    let ghost all = groups@;
    let mut kept: Vec<SizeGroup> = Vec::new();
    let mut count: u64 = 0;
    proof {
        assert(size_entries(all.take(0)) =~= Seq::<(u64, Seq<FileInfo>)>::empty());
        assert(size_entries(kept@) =~= Seq::<(u64, Seq<FileInfo>)>::empty());
    }
    for g in it: groups.into_iter()
        invariant
            it.seq() == all,
            total(size_entries(all)) <= u64::MAX,
            size_entries(kept@) == multiples(size_entries(all.take(it.index() as int))),
            count == total(size_entries(kept@)),
    {
        let ghost i = it.index() as int;
        let ghost e = (g.size, g.files@);
        proof {
            assert(all.take(i + 1) =~= all.take(i).push(g));
            assert(size_entries(all.take(i + 1)) =~= size_entries(all.take(i)).push(e));
            lemma_multiples_push(size_entries(all.take(i)), e);
            lemma_multiples_total(size_entries(all.take(i + 1)));
            assert(size_entries(all.take(i + 1)) =~= size_entries(all).take(i + 1));
            lemma_total_take(size_entries(all), i + 1);
        }
        if g.files.len() >= 2 {
            proof {
                lemma_total_push(size_entries(kept@), e);
            }
            count = count + g.files.len() as u64;
            kept.push(g);
            proof {
                assert(size_entries(kept@) =~= multiples(size_entries(all.take(i))).push(e));
            }
        }
    }
    proof {
        assert(all.take(all.len() as int) =~= all);
    }
    (kept, count)
}

/// Keeps the hash groups that hold at least two files, in order, and counts the files they hold.
pub fn keep_hash_duplicates(groups: Vec<HashGroup>) -> (res: (Vec<HashGroup>, u64))
    requires
        total(hash_entries(groups@)) <= u64::MAX,
    ensures
        hash_entries(res.0@) == multiples(hash_entries(groups@)),
        res.1 == total(hash_entries(res.0@)),
{
    let ghost all = groups@;
    let mut kept: Vec<HashGroup> = Vec::new();
    let mut count: u64 = 0;
    proof {
        assert(hash_entries(all.take(0)) =~= Seq::<(Seq<char>, Seq<FileInfo>)>::empty());
        assert(hash_entries(kept@) =~= Seq::<(Seq<char>, Seq<FileInfo>)>::empty());
    }
    for g in it: groups.into_iter()
        invariant
            it.seq() == all,
            total(hash_entries(all)) <= u64::MAX,
            hash_entries(kept@) == multiples(hash_entries(all.take(it.index() as int))),
            count == total(hash_entries(kept@)),
    {
        let ghost i = it.index() as int;
        let ghost e = (g.hash@, g.files@);
        proof {
            assert(all.take(i + 1) =~= all.take(i).push(g));
            assert(hash_entries(all.take(i + 1)) =~= hash_entries(all.take(i)).push(e));
            lemma_multiples_push(hash_entries(all.take(i)), e);
            lemma_multiples_total(hash_entries(all.take(i + 1)));
            assert(hash_entries(all.take(i + 1)) =~= hash_entries(all).take(i + 1));
            lemma_total_take(hash_entries(all), i + 1);
        }
        if g.files.len() >= 2 {
            proof {
                lemma_total_push(hash_entries(kept@), e);
            }
            count = count + g.files.len() as u64;
            kept.push(g);
            proof {
                assert(hash_entries(kept@) =~= multiples(hash_entries(all.take(i))).push(e));
            }
        }
    }
    proof {
        assert(all.take(all.len() as int) =~= all);
    }
    (kept, count)
}

/// The text of each string.
pub open spec fn texts_of(strings: Seq<String>) -> Seq<Seq<char>> {
    strings.map_values(|s: String| s@)
}

/// The position of the group for `key` in `groups`.
pub fn find_group(groups: &Vec<HashGroup>, key: &str) -> (r: Option<usize>)
    ensures
        match r {
            Some(g) => g as int == key_index(keys_of(hash_entries(groups@)), key@),
            None => key_index(keys_of(hash_entries(groups@)), key@) == -1,
        },
{
    let ghost keys = keys_of(hash_entries(groups@));
    proof {
        lemma_key_index(keys, key@);
    }
    let mut j: usize = 0;
    while j < groups.len()
        invariant
            keys == keys_of(hash_entries(groups@)),
            j <= groups@.len(),
            forall|m: int| 0 <= m < j ==> keys[m] != key@,
            -1 <= key_index(keys, key@) < keys.len(),
            key_index(keys, key@) == -1 <==> !keys.contains(key@),
            key_index(keys, key@) >= 0 ==> keys[key_index(keys, key@)] == key@,
            forall|m: int| 0 <= m < key_index(keys, key@) ==> keys[m] != key@,
        decreases groups@.len() - j,
    {
        if same_text(groups[j].hash.as_str(), key) {
            assert(keys[j as int] == key@);
            return Some(j);
        }
        assert(keys[j as int] != key@);
        j = j + 1;
    }
    proof {
        if keys.contains(key@) {
            let m = choose|m: int| 0 <= m < keys.len() && keys[m] == key@;
            assert(keys[m] != key@);
        }
    }
    None
}

/// Groups files by the hash text given for each (at the same position): one group per distinct
/// text, in the order the texts first occur, each holding its files in the order they came.
pub fn group_by_hash(files: Vec<FileInfo>, hashes: Vec<String>) -> (groups: Vec<HashGroup>)
    requires
        files.len() == hashes.len(),
    ensures
        hash_entries(groups@) == grouping(texts_of(hashes@), files@),
{
    let ghost all = files@;
    let ghost keys = texts_of(hashes@);
    let mut groups: Vec<HashGroup> = Vec::new();
    let mut i: usize = 0;
    proof {
        assert(all.take(0) =~= Seq::<FileInfo>::empty());
        assert(keys.take(0) =~= Seq::<Seq<char>>::empty());
        assert(hash_entries(groups@) =~= grouping(keys.take(0), all.take(0)));
    }
    for f in it: files.into_iter()
        invariant
            it.seq() == all,
            i == it.index(),
            all.len() == hashes@.len(),
            keys == texts_of(hashes@),
            hash_entries(groups@) == grouping(keys.take(i as int), all.take(i as int)),
    {
        let ghost before = groups@;
        let ghost ks = keys.take(i as int);
        let ghost its = all.take(i as int);
        proof {
            assert(it.index() < all.len());
        }
        let h = &hashes[i];
        proof {
            assert(keys.take(i + 1) =~= ks.push(h@));
            assert(all.take(i + 1) =~= its.push(f));
        }
        let ghost pos = lemma_grouping_push(ks, its, h@, f);
        let found = find_group(&groups, h.as_str());
        proof {
            lemma_key_index(keys_of(hash_entries(groups@)), h@);
            lemma_first_keys_distinct(ks);
            assert(keys_of(grouping(ks, its)) =~= first_keys(ks));
        }
        match found {
            Some(g) => {
                proof {
                    assert(first_keys(ks).contains(h@));
                    assert(first_keys(ks)[g as int] == h@);
                    assert(g as int == pos);
                }
                groups[g].files.push(f);
                proof {
                    assert(hash_entries(groups@) =~= hash_entries(before).update(
                        g as int,
                        (h@, hash_entries(before)[g as int].1.push(f)),
                    ));
                }
            },
            None => {
                let mut v: Vec<FileInfo> = Vec::new();
                v.push(f);
                groups.push(HashGroup { hash: h.clone(), files: v });
                proof {
                    assert(!first_keys(ks).contains(h@));
                    assert(v@ =~= seq![f]);
                    assert(hash_entries(groups@) =~= hash_entries(before).push((h@, seq![f])));
                }
            },
        }
        proof {
            assert(i < hashes.len());
        }
        i = i + 1;
    }
    proof {
        assert(all.take(all.len() as int) =~= all);
        assert(keys.take(all.len() as int) =~= keys);
    }
    groups
}

/// What `md5::compute` returns for `data`: the bytes of its MD5 digest.
pub uninterp spec fn md5_digest(data: Seq<u8>) -> Seq<u8>;

/// Calls `md5::compute`. Claims only that the 16 bytes it returns are `md5_digest` of the input.
#[verifier::external_body]
fn md5_of(data: &[u8]) -> (d: [u8; 16])
    ensures
        d@ == md5_digest(data@),
{
    md5::compute(data).0
}

/// The quick fingerprint of a file: the lower-case hexadecimal MD5 digest of its first and last
/// 4 KiB.
pub open spec fn partial_key(f: FileInfo) -> Seq<char> {
    hex_lower(md5_digest(f.sample()))
}

/// A file's quick fingerprint.
pub open spec fn partial_key_of() -> spec_fn(FileInfo) -> Seq<char> {
    |f: FileInfo| partial_key(f)
}

/// The quick fingerprint of each file.
pub open spec fn partial_keys(files: Seq<FileInfo>) -> Seq<Seq<char>> {
    files.map_values(partial_key_of())
}

/// The lower-case hexadecimal MD5 digest of the file's first and last 4 KiB.
pub fn partial_hash(file: &FileInfo) -> (h: String)
    ensures
        h@ == partial_key(*file),
{
    let d = md5_of(file.first_and_last_4kb.as_slice());
    hex_string(d.as_slice())
}

/// Groups files of one size by their quick fingerprint.
pub fn group_by_partial_hash(files: Vec<FileInfo>) -> (groups: Vec<HashGroup>)
    ensures
        hash_entries(groups@) == grouping(partial_keys(files@), files@),
{
    let mut hashes: Vec<String> = Vec::new();
    let mut i: usize = 0;
    while i < files.len()
        invariant
            i <= files@.len(),
            texts_of(hashes@) == partial_keys(files@).take(i as int),
        decreases files@.len() - i,
    {
        let ghost old_hashes = hashes@;
        let h = partial_hash(&files[i]);
        hashes.push(h);
        proof {
            assert(texts_of(hashes@) =~= texts_of(old_hashes).push(hashes@[i as int]@));
            assert(texts_of(hashes@) =~= partial_keys(files@).take(i + 1));
        }
        i = i + 1;
    }
    proof {
        assert(partial_keys(files@).take(files@.len() as int) =~= partial_keys(files@));
    }
    group_by_hash(files, hashes)
}

#[verifier::external_type_specification]
#[verifier::external_body]
pub struct ExBlake3Hasher(blake3::Hasher);

/// The bytes fed to a BLAKE3 hasher so far.
pub uninterp spec fn hasher_input(h: blake3::Hasher) -> Seq<u8>;

/// What BLAKE3 gives for `data`: the bytes of its 32-byte digest.
pub uninterp spec fn blake3_digest(data: Seq<u8>) -> Seq<u8>;

/// Calls `blake3::Hasher::new`. Claims that the new hasher has been fed nothing.
#[verifier::external_body]
fn hasher_new() -> (h: blake3::Hasher)
    ensures
        hasher_input(h) == Seq::<u8>::empty(),
{
    blake3::Hasher::new()
}

/// Calls `blake3::Hasher::update`. Claims that the hasher has then been fed `input` after what
/// it held.
#[verifier::external_body]
fn hasher_update(h: &mut blake3::Hasher, input: &[u8])
    ensures
        hasher_input(*final(h)) == hasher_input(*old(h)) + input@,
{
    h.update(input);
}

/// Calls `blake3::Hasher::finalize`. Claims that the 32 bytes of the hash are `blake3_digest` of
/// all that the hasher was fed.
#[verifier::external_body]
fn hasher_finalize(h: &blake3::Hasher) -> (d: [u8; 32])
    ensures
        d@ == blake3_digest(hasher_input(*h)),
{
    *h.finalize().as_bytes()
}

/// The content fingerprint of a file: the lower-case hexadecimal BLAKE3 digest of all its bytes.
pub open spec fn full_key(content: Seq<u8>) -> Seq<char> {
    hex_lower(blake3_digest(content))
}

/// Computes the content fingerprint of a file fed to it piece by piece.
pub struct ContentHasher {
    hasher: blake3::Hasher,
}

impl ContentHasher {
    /// The bytes fed so far.
    pub closed spec fn input(&self) -> Seq<u8> {
        hasher_input(self.hasher)
    }

    /// A hasher that has been fed nothing.
    pub fn new() -> (h: Self)
        ensures
            h.input() == Seq::<u8>::empty(),
    {
        ContentHasher { hasher: hasher_new() }
    }

    /// Feeds `data` after what was fed before.
    pub fn update(&mut self, data: &[u8])
        ensures
            final(self).input() == old(self).input() + data@,
    {
        hasher_update(&mut self.hasher, data);
    }

    /// The content fingerprint of all that was fed.
    pub fn finish_hex(&self) -> (s: String)
        ensures
            s@ == full_key(self.input()),
    {
        let d = hasher_finalize(&self.hasher);
        hex_string(d.as_slice())
    }
}

/// The text of each hash that was computed, `None` where it could not be.
pub open spec fn option_texts(hashes: Seq<Option<String>>) -> Seq<Option<Seq<char>>> {
    hashes.map_values(|o: Option<String>| match o {
        Some(s) => Some(s@),
        None => None,
    })
}

/// The files whose hash is known, in order.
pub open spec fn known_files(files: Seq<FileInfo>, hashes: Seq<Option<Seq<char>>>) -> Seq<FileInfo>
    decreases files.len(),
{
    if files.len() == 0 || hashes.len() == 0 {
        Seq::empty()
    } else {
        let rest = known_files(files.drop_last(), hashes.drop_last());
        match hashes.last() {
            Some(_) => rest.push(files.last()),
            None => rest,
        }
    }
}

/// The hashes that are known, in order.
pub open spec fn known_keys(hashes: Seq<Option<Seq<char>>>) -> Seq<Seq<char>>
    decreases hashes.len(),
{
    if hashes.len() == 0 {
        Seq::empty()
    } else {
        let rest = known_keys(hashes.drop_last());
        match hashes.last() {
            Some(k) => rest.push(k),
            None => rest,
        }
    }
}

proof fn lemma_known_push(files: Seq<FileInfo>, hashes: Seq<Option<Seq<char>>>, f: FileInfo, h: Option<Seq<char>>)
    requires
        files.len() == hashes.len(),
    ensures
        known_files(files.push(f), hashes.push(h)) == (match h {
            Some(_) => known_files(files, hashes).push(f),
            None => known_files(files, hashes),
        }),
        known_keys(hashes.push(h)) == (match h {
            Some(k) => known_keys(hashes).push(k),
            None => known_keys(hashes),
        }),
        known_files(files, hashes).len() == known_keys(hashes).len(),
    decreases files.len(),
{
    assert(files.push(f).drop_last() =~= files);
    assert(hashes.push(h).drop_last() =~= hashes);
    if files.len() > 0 {
        lemma_known_push(files.drop_last(), hashes.drop_last(), files.last(), hashes.last());
        assert(files.drop_last().push(files.last()) =~= files);
        assert(hashes.drop_last().push(hashes.last()) =~= hashes);
    }
}

/// Groups the files whose full hash is known by that hash; a file whose hash could not be
/// computed (`None` at its position) is left out.
pub fn group_by_full_hash(files: Vec<FileInfo>, hashes: &Vec<Option<String>>) -> (groups: Vec<HashGroup>)
    requires
        files.len() == hashes.len(),
    ensures
        hash_entries(groups@) == grouping(
            known_keys(option_texts(hashes@)),
            known_files(files@, option_texts(hashes@)),
        ),
{
    let ghost all = files@;
    let ghost hs = option_texts(hashes@);
    let mut kept: Vec<FileInfo> = Vec::new();
    let mut keys: Vec<String> = Vec::new();
    let mut i: usize = 0;
    proof {
        assert(all.take(0) =~= Seq::<FileInfo>::empty());
        assert(hs.take(0) =~= Seq::<Option<Seq<char>>>::empty());
        assert(texts_of(keys@) =~= Seq::<Seq<char>>::empty());
    }
    for f in it: files.into_iter()
        invariant
            it.seq() == all,
            i == it.index(),
            all.len() == hashes@.len(),
            hs == option_texts(hashes@),
            kept@ == known_files(all.take(i as int), hs.take(i as int)),
            texts_of(keys@) == known_keys(hs.take(i as int)),
    {
        proof {
            assert(it.index() < all.len());
            assert(all.take(i + 1) =~= all.take(i as int).push(f));
            assert(hs.take(i + 1) =~= hs.take(i as int).push(hs[i as int]));
            lemma_known_push(all.take(i as int), hs.take(i as int), f, hs[i as int]);
        }
        match &hashes[i] {
            Some(h) => {
                let ghost old_keys = keys@;
                kept.push(f);
                keys.push(h.clone());
                proof {
                    assert(texts_of(keys@) =~= texts_of(old_keys).push(h@));
                }
            },
            None => {},
        }
        proof {
            assert(i < hashes.len());
        }
        i = i + 1;
    }
    proof {
        assert(all.take(all.len() as int) =~= all);
        assert(hs.take(all.len() as int) =~= hs);
        lemma_known_len(all, hs);
    }
    group_by_hash(kept, keys)
}

/// Merges `groups` into `into`: the files of a group go to the end of the group with the same
/// hash, or the group is added at the end where there is none.
pub fn merge_groups(into: &mut Vec<HashGroup>, groups: Vec<HashGroup>)
    ensures
        hash_entries(final(into)@) == merge_all(hash_entries(old(into)@), hash_entries(groups@)),
{
    let ghost start = hash_entries(into@);
    let ghost all = groups@;
    proof {
        assert(hash_entries(all.take(0)) =~= Seq::<(Seq<char>, Seq<FileInfo>)>::empty());
    }
    for g in it: groups.into_iter()
        invariant
            it.seq() == all,
            hash_entries(into@) == merge_all(start, hash_entries(all.take(it.index() as int))),
    {
        let ghost i = it.index() as int;
        let ghost before = hash_entries(into@);
        let ghost e = (g.hash@, g.files@);
        proof {
            assert(all.take(i + 1) =~= all.take(i).push(g));
            assert(hash_entries(all.take(i + 1)) =~= hash_entries(all.take(i)).push(e));
            assert(hash_entries(all.take(i + 1)).drop_last() =~= hash_entries(all.take(i)));
            assert(keys_of(before) =~= keys_of(hash_entries(into@)));
        }
        let found = find_group(into, g.hash.as_str());
        proof {
            lemma_key_index(keys_of(before), e.0);
        }
        match found {
            Some(k) => {
                let HashGroup { hash, files } = g;
                let mut files = files;
                into[k].files.append(&mut files);
                proof {
                    assert(hash_entries(into@) =~= before.update(k as int, (e.0, before[k as int].1 + e.1)));
                }
            },
            None => {
                into.push(g);
                proof {
                    assert(hash_entries(into@) =~= before.push(e));
                }
            },
        }
    }
    proof {
        assert(all.take(all.len() as int) =~= all);
    }
}

/// Adds the groups of `groups` whose hash no group of `into` has yet, in order.
pub fn add_new_groups(into: &mut Vec<HashGroup>, groups: Vec<HashGroup>)
    ensures
        hash_entries(final(into)@) == add_all(hash_entries(old(into)@), hash_entries(groups@)),
{
    let ghost start = hash_entries(into@);
    let ghost all = groups@;
    proof {
        assert(hash_entries(all.take(0)) =~= Seq::<(Seq<char>, Seq<FileInfo>)>::empty());
    }
    for g in it: groups.into_iter()
        invariant
            it.seq() == all,
            hash_entries(into@) == add_all(start, hash_entries(all.take(it.index() as int))),
    {
        let ghost i = it.index() as int;
        let ghost before = hash_entries(into@);
        let ghost e = (g.hash@, g.files@);
        proof {
            assert(all.take(i + 1) =~= all.take(i).push(g));
            assert(hash_entries(all.take(i + 1)) =~= hash_entries(all.take(i)).push(e));
            assert(hash_entries(all.take(i + 1)).drop_last() =~= hash_entries(all.take(i)));
        }
        let found = find_group(into, g.hash.as_str());
        if found.is_none() {
            into.push(g);
            proof {
                assert(hash_entries(into@) =~= before.push(e));
            }
        }
    }
    proof {
        assert(all.take(all.len() as int) =~= all);
    }
}

proof fn lemma_known_len(files: Seq<FileInfo>, hashes: Seq<Option<Seq<char>>>)
    requires
        files.len() == hashes.len(),
    ensures
        known_files(files, hashes).len() <= files.len(),
        known_files(files, hashes).len() == known_keys(hashes).len(),
    decreases files.len(),
{
    if files.len() > 0 {
        lemma_known_len(files.drop_last(), hashes.drop_last());
    }
}

/// Same-size groups of at least two files: the files grouped by size, without the sizes that
/// only one file has.
pub open spec fn size_candidates(files: Seq<FileInfo>) -> Seq<(u64, Seq<FileInfo>)> {
    multiples(grouping(sizes_of(files), files))
}

/// The groups of at least two files of one size that share a quick fingerprint.
pub open spec fn partial_groups_of(files: Seq<FileInfo>) -> Seq<(Seq<char>, Seq<FileInfo>)> {
    multiples(grouping(partial_keys(files), files))
}

/// The quick-fingerprint groups of all size groups, merged by fingerprint in the order of the
/// size groups.
pub open spec fn partial_candidates(size_groups: Seq<(u64, Seq<FileInfo>)>) -> Seq<(Seq<char>, Seq<FileInfo>)>
    decreases size_groups.len(),
{
    if size_groups.len() == 0 {
        Seq::empty()
    } else {
        merge_all(partial_candidates(size_groups.drop_last()), partial_groups_of(size_groups.last().1))
    }
}

/// How many files the quick-fingerprint groups of all size groups hold together.
pub open spec fn partial_count(size_groups: Seq<(u64, Seq<FileInfo>)>) -> nat
    decreases size_groups.len(),
{
    if size_groups.len() == 0 {
        0
    } else {
        partial_count(size_groups.drop_last()) + total(partial_groups_of(size_groups.last().1))
    }
}

/// The groups of at least two files of one candidate group that share a content fingerprint,
/// leaving out the files whose fingerprint could not be computed.
pub open spec fn full_groups_of(files: Seq<FileInfo>, hashes: Seq<Option<Seq<char>>>) -> Seq<(Seq<char>, Seq<FileInfo>)> {
    multiples(grouping(known_keys(hashes), known_files(files, hashes)))
}

/// The computed content fingerprints of each candidate group.
pub open spec fn hash_lists(hashes: Seq<Vec<Option<String>>>) -> Seq<Seq<Option<Seq<char>>>> {
    hashes.map_values(|v: Vec<Option<String>>| option_texts(v@))
}

/// The duplicate groups: the content-fingerprint groups of the candidate groups, in order, where
/// a fingerprint that an earlier group already gave keeps that earlier group.
pub open spec fn full_duplicates(
    partial: Seq<(Seq<char>, Seq<FileInfo>)>,
    hashes: Seq<Seq<Option<Seq<char>>>>,
) -> Seq<(Seq<char>, Seq<FileInfo>)>
    decreases partial.len(),
{
    if partial.len() == 0 || hashes.len() == 0 {
        Seq::empty()
    } else {
        add_all(
            full_duplicates(partial.drop_last(), hashes.drop_last()),
            full_groups_of(partial.last().1, hashes.last()),
        )
    }
}

/// First stage of the duplicate search: groups the scanned files by size, keeps the sizes that
/// at least two files share, and counts the files kept.
pub fn candidates_by_size(files: Vec<FileInfo>) -> (res: (Vec<SizeGroup>, u64))
    ensures
        size_entries(res.0@) == size_candidates(files@),
        res.1 == total(size_candidates(files@)),
{
    let ghost all = files@;
    let n = files.len();
    let groups = find_same_size_files_recursive_parallel(files);
    proof {
        lemma_grouping_keeps_every_item(sizes_of(all), all);
        assert(total(size_entries(groups@)) == n);
    }
    keep_size_duplicates(groups)
}

/// Second stage: within each size group, groups the files by quick fingerprint and keeps the
/// fingerprints that at least two files share; merges these groups by fingerprint over all size
/// groups, and counts the files kept.
pub fn candidates_by_partial_hash(size_groups: Vec<SizeGroup>) -> (res: (Vec<HashGroup>, u64))
    requires
        total(size_entries(size_groups@)) <= u64::MAX,
    ensures
        hash_entries(res.0@) == partial_candidates(size_entries(size_groups@)),
        res.1 == partial_count(size_entries(size_groups@)),
{
    let ghost orig = size_groups@;
    let ghost all = size_entries(orig);
    let mut acc: Vec<HashGroup> = Vec::new();
    let mut count: u64 = 0;
    proof {
        assert(all.take(0) =~= Seq::<(u64, Seq<FileInfo>)>::empty());
        assert(hash_entries(acc@) =~= Seq::<(Seq<char>, Seq<FileInfo>)>::empty());
    }
    for g in it: size_groups.into_iter()
        invariant
            it.seq() == orig,
            all == size_entries(orig),
            total(all) <= u64::MAX,
            hash_entries(acc@) == partial_candidates(all.take(it.index() as int)),
            count == partial_count(all.take(it.index() as int)),
            partial_count(all.take(it.index() as int)) <= total(all.take(it.index() as int)),
    {
        let ghost i = it.index() as int;
        let ghost e = (g.size, g.files@);
        proof {
            assert(all.take(i + 1) =~= all.take(i).push(e));
            assert(all.take(i + 1).drop_last() =~= all.take(i));
            lemma_total_push(all.take(i), e);
            assert(all.take(i + 1) =~= all.take(i + 1));
            lemma_total_take(all, i + 1);
        }
        let SizeGroup { size, files } = g;
        let ghost fs = files@;
        let n = files.len();
        let sub = group_by_partial_hash(files);
        proof {
            lemma_grouping_keeps_every_item(partial_keys(fs), fs);
            lemma_multiples_total(grouping(partial_keys(fs), fs));
        }
        let (kept, c) = keep_hash_duplicates(sub);
        count = count + c;
        merge_groups(&mut acc, kept);
    }
    proof {
        assert(all.take(all.len() as int) =~= all);
    }
    (acc, count)
}

/// Last stage: within each candidate group, groups the files by content fingerprint (given at the
/// same positions in `hashes`; `None` where it could not be computed) and keeps the fingerprints
/// that at least two files share; a fingerprint that an earlier group already gave keeps that
/// earlier group.
pub fn duplicates_by_full_hash(partial: Vec<HashGroup>, hashes: Vec<Vec<Option<String>>>) -> (res: Vec<HashGroup>)
    requires
        partial.len() == hashes.len(),
        forall|i: int| 0 <= i < partial.len() ==> #[trigger] partial@[i].files.len() == hashes@[i].len(),
    ensures
        hash_entries(res@) == full_duplicates(hash_entries(partial@), hash_lists(hashes@)),
{
    let ghost orig = partial@;
    let ghost all = hash_entries(orig);
    let ghost hl = hash_lists(hashes@);
    let mut acc: Vec<HashGroup> = Vec::new();
    let mut i: usize = 0;
    proof {
        assert(full_duplicates(all.take(0), hl.take(0)) =~= Seq::<(Seq<char>, Seq<FileInfo>)>::empty());
        assert(hash_entries(acc@) =~= Seq::<(Seq<char>, Seq<FileInfo>)>::empty());
    }
    for g in it: partial.into_iter()
        invariant
            it.seq() == orig,
            i == it.index(),
            all == hash_entries(orig),
            hl == hash_lists(hashes@),
            orig.len() == hashes@.len(),
            forall|j: int| 0 <= j < orig.len() ==> #[trigger] orig[j].files.len() == hashes@[j].len(),
            hash_entries(acc@) == full_duplicates(all.take(i as int), hl.take(i as int)),
    {
        proof {
            assert(it.index() < orig.len());
            assert(g == orig[i as int]);
            assert(all.take(i + 1).drop_last() =~= all.take(i as int));
            assert(hl.take(i + 1).drop_last() =~= hl.take(i as int));
            assert(all.take(i + 1).last() == all[i as int]);
            assert(hl.take(i + 1).last() == hl[i as int]);
        }
        let HashGroup { hash, files } = g;
        let ghost fs = files@;
        let hs = &hashes[i];
        let sub = group_by_full_hash(files, hs);
        proof {
            let kh = option_texts(hs@);
            assert(orig[i as int].files.len() == hashes@[i as int].len());
            assert(fs.len() == kh.len());
            lemma_known_len(fs, kh);
            lemma_grouping_keeps_every_item(known_keys(kh), known_files(fs, kh));
        }
        let (kept, _count) = keep_hash_duplicates(sub);
        add_new_groups(&mut acc, kept);
        proof {
            assert(i < hashes.len());
        }
        i = i + 1;
    }
    proof {
        assert(all.take(all.len() as int) =~= all);
        assert(hl.take(all.len() as int) =~= hl);
    }
    acc
}

/// Every candidate group of the second stage holds at least two files, and no two candidate
/// groups share a quick fingerprint.
pub proof fn lemma_partial_candidates_are_groups(size_groups: Seq<(u64, Seq<FileInfo>)>)
    ensures
        distinct_multiples(partial_candidates(size_groups)),
    decreases size_groups.len(),
{
    if size_groups.len() == 0 {
        assert(keys_of(partial_candidates(size_groups)) =~= Seq::<Seq<char>>::empty());
    } else {
        lemma_partial_candidates_are_groups(size_groups.drop_last());
        let fs = size_groups.last().1;
        lemma_grouping_distinct(partial_keys(fs), fs);
        lemma_multiples_keep(grouping(partial_keys(fs), fs));
        lemma_merge_all_keeps(partial_candidates(size_groups.drop_last()), partial_groups_of(fs));
    }
}

/// Every reported duplicate group holds at least two files, and no two reported groups share a
/// content fingerprint.
pub proof fn lemma_duplicates_are_groups(
    partial: Seq<(Seq<char>, Seq<FileInfo>)>,
    hashes: Seq<Seq<Option<Seq<char>>>>,
)
    ensures
        distinct_multiples(full_duplicates(partial, hashes)),
    decreases partial.len(),
{
    if partial.len() == 0 || hashes.len() == 0 {
        assert(keys_of(full_duplicates(partial, hashes)) =~= Seq::<Seq<char>>::empty());
    } else {
        lemma_duplicates_are_groups(partial.drop_last(), hashes.drop_last());
        let fs = partial.last().1;
        let hs = hashes.last();
        lemma_grouping_distinct(known_keys(hs), known_files(fs, hs));
        lemma_multiples_keep(grouping(known_keys(hs), known_files(fs, hs)));
        lemma_add_all_keeps(full_duplicates(partial.drop_last(), hashes.drop_last()), full_groups_of(fs, hs));
    }
}

/// Whether a file of `size` bytes is searched, the bounds included.
pub fn size_in_range(size: u64, min: u64, max: u64) -> (ok: bool)
    ensures
        ok == (min <= size && size <= max),
{
    !(size < min || size > max)
}

/// A regular file that a directory walk found, with its size in bytes.
pub struct FoundFile {
    pub path: String,
    pub size: u64,
}

/// The smallest file the plain walk samples: 100 KiB.
pub const SCAN_MIN_SIZE: u64 = 102400;
/// The largest file the plain walk samples: 1 GiB.
pub const SCAN_MAX_SIZE: u64 = 1073741824;

/// The files, in order, whose size is within the walk's bounds.
pub open spec fn in_scan_range(found: Seq<FoundFile>) -> Seq<FoundFile>
    decreases found.len(),
{
    if found.len() == 0 {
        found
    } else if SCAN_MIN_SIZE <= found.last().size <= SCAN_MAX_SIZE {
        in_scan_range(found.drop_last()).push(found.last())
    } else {
        in_scan_range(found.drop_last())
    }
}

/// Of the regular files a walk of a directory tree found, the ones whose samples are taken:
/// those of 100 KiB to 1 GiB, in order.
pub fn build_dir_flatmap(found: Vec<FoundFile>) -> (kept: Vec<FoundFile>)
    ensures
        kept@ == in_scan_range(found@),
{
    let ghost all = found@;
    let mut kept: Vec<FoundFile> = Vec::new();
    proof {
        assert(all.take(0) =~= Seq::<FoundFile>::empty());
    }
    for f in it: found.into_iter()
        invariant
            it.seq() == all,
            kept@ == in_scan_range(all.take(it.index() as int)),
    {
        proof {
            assert(all.take(it.index() + 1) =~= all.take(it.index() as int).push(f));
            assert(all.take(it.index() + 1).drop_last() =~= all.take(it.index() as int));
        }
        if size_in_range(f.size, SCAN_MIN_SIZE, SCAN_MAX_SIZE) {
            kept.push(f);
        }
    }
    proof {
        assert(all.take(all.len() as int) =~= all);
    }
    kept
}

/// How many bytes to read from the start of a file of `file_size` bytes, and how many from its
/// end: up to 4 KiB from the start, and 4 KiB from the end when the file is larger than that.
pub fn read_plan(file_size: u64) -> (plan: (usize, usize))
    ensures
        plan.0 == (if file_size < 4096 { file_size } else { 4096 }),
        plan.1 == (if file_size > 4096 { 4096usize } else { 0usize }),
{
    let first: usize = if file_size < 4096 { file_size as usize } else { 4096 };
    let last: usize = if file_size > 4096 { 4096 } else { 0 };
    (first, last)
}

/// The sample kept of a file: the bytes read from its start at position 0, those read from its
/// end at position 4096, zeros elsewhere.
pub open spec fn sample_bytes(head: Seq<u8>, tail: Seq<u8>) -> Seq<u8> {
    Seq::new(
        8192,
        |i: int|
            if i < head.len() {
                head[i]
            } else if 4096 <= i < 4096 + tail.len() {
                tail[i - 4096]
            } else {
                0u8
            },
    )
}

/// Lays out the bytes read from the start and the end of a file as its sample.
pub fn sample_of(head: &[u8], tail: &[u8]) -> (s: [u8; 8192])
    requires
        head@.len() <= 4096,
        tail@.len() <= 4096,
    ensures
        s@ == sample_bytes(head@, tail@),
{
    let mut buf = [0u8; 8192];
    let mut i: usize = 0;
    while i < head.len()
        invariant
            i <= head@.len() <= 4096,
            buf@.len() == 8192,
            forall|k: int| 0 <= k < 8192 ==> #[trigger] buf@[k] == (if k < i { head@[k] } else { 0u8 }),
        decreases head@.len() - i,
    {
        buf[i] = head[i];
        i = i + 1;
    }
    let mut j: usize = 0;
    while j < tail.len()
        invariant
            head@.len() <= 4096,
            j <= tail@.len() <= 4096,
            buf@.len() == 8192,
            forall|k: int| 0 <= k < 8192 ==> #[trigger] buf@[k] == (if k < head@.len() {
                head@[k]
            } else if 4096 <= k < 4096 + j {
                tail@[k - 4096]
            } else {
                0u8
            }),
        decreases tail@.len() - j,
    {
        buf[4096 + j] = tail[j];
        j = j + 1;
    }
    assert(buf@ =~= sample_bytes(head@, tail@));
    buf
}

/// All files of a same-size group have the group's size.
pub proof fn lemma_size_candidates_share_size(files: Seq<FileInfo>)
    ensures
        members_keyed(size_candidates(files), size_key()),
{
    lemma_grouping_keyed(files, size_key());
    lemma_multiples_keyed(grouping(sizes_of(files), files), size_key());
}

/// All files of a candidate group of the second stage have the group's quick fingerprint.
pub proof fn lemma_partial_candidates_share_fingerprint(size_groups: Seq<(u64, Seq<FileInfo>)>)
    ensures
        members_keyed(partial_candidates(size_groups), partial_key_of()),
    decreases size_groups.len(),
{
    if size_groups.len() > 0 {
        lemma_partial_candidates_share_fingerprint(size_groups.drop_last());
        let fs = size_groups.last().1;
        lemma_grouping_keyed(fs, partial_key_of());
        lemma_multiples_keyed(grouping(partial_keys(fs), fs), partial_key_of());
        lemma_merge_all_keyed(partial_candidates(size_groups.drop_last()), partial_groups_of(fs), partial_key_of());
    }
}

proof fn lemma_known_origin(files: Seq<FileInfo>, hashes: Seq<Option<Seq<char>>>, q: int)
    requires
        files.len() == hashes.len(),
        0 <= q < known_files(files, hashes).len(),
    ensures
        exists|p: int| 0 <= p < files.len() && files[p] == known_files(files, hashes)[q] && hashes[p]
            == Some(known_keys(hashes)[q]),
    decreases files.len(),
{
    let fd = files.drop_last();
    let hd = hashes.drop_last();
    lemma_known_len(fd, hd);
    lemma_known_len(files, hashes);
    if q < known_files(fd, hd).len() {
        lemma_known_origin(fd, hd, q);
        let p = choose|p: int| 0 <= p < fd.len() && fd[p] == known_files(fd, hd)[q] && hd[p] == Some(known_keys(hd)[q]);
        assert(files[p] == fd[p] && hashes[p] == hd[p]);
        assert(known_files(files, hashes)[q] == known_files(fd, hd)[q]);
        assert(known_keys(hashes)[q] == known_keys(hd)[q]);
    } else {
        let p = files.len() - 1;
        assert(files[p] == files.last() && hashes[p] == hashes.last());
    }
}

proof fn lemma_full_duplicates_origin(
    partial: Seq<(Seq<char>, Seq<FileInfo>)>,
    hashes: Seq<Seq<Option<Seq<char>>>>,
    g: int,
)
    requires
        partial.len() == hashes.len(),
        0 <= g < full_duplicates(partial, hashes).len(),
    ensures
        exists|i: int, h: int|
            0 <= i < partial.len() && i < hashes.len() && 0 <= h < full_groups_of(partial[i].1, hashes[i]).len()
                && #[trigger] full_groups_of(partial[i].1, hashes[i])[h] == full_duplicates(partial, hashes)[g],
    decreases partial.len(),
{
    if partial.len() > 0 && hashes.len() > 0 {
        let pd = partial.drop_last();
        let hd = hashes.drop_last();
        let prev = full_duplicates(pd, hd);
        let es = full_groups_of(partial.last().1, hashes.last());
        lemma_add_all_origin(prev, es, g);
        let n = partial.len() - 1;
        let m = hashes.len() - 1;
        if exists|a: int| 0 <= a < prev.len() && prev[a] == full_duplicates(partial, hashes)[g] {
            let a = choose|a: int| 0 <= a < prev.len() && prev[a] == full_duplicates(partial, hashes)[g];
            lemma_full_duplicates_origin(pd, hd, a);
            let (i, h) = choose|i: int, h: int|
                0 <= i < pd.len() && i < hd.len() && 0 <= h < full_groups_of(pd[i].1, hd[i]).len()
                    && #[trigger] full_groups_of(pd[i].1, hd[i])[h] == prev[a];
            assert(pd[i] == partial[i] && hd[i] == hashes[i]);
            assert(full_groups_of(partial[i].1, hashes[i])[h] == full_duplicates(partial, hashes)[g]);
        } else {
            let h = choose|h: int| 0 <= h < es.len() && es[h] == full_duplicates(partial, hashes)[g];
            assert(partial[n] == partial.last() && hashes[m] == hashes.last());
            assert(full_groups_of(partial[n].1, hashes[m])[h] == full_duplicates(partial, hashes)[g]);
        }
    }
}

/// What the duplicate search promises of each file it reports: the file belongs to one of the
/// candidate groups, and the content fingerprint computed for it there is the fingerprint of
/// the group it is reported in.
pub proof fn lemma_duplicates_share_content(
    partial: Seq<(Seq<char>, Seq<FileInfo>)>,
    hashes: Seq<Seq<Option<Seq<char>>>>,
    g: int,
    j: int,
)
    requires
        partial.len() == hashes.len(),
        forall|i: int| 0 <= i < partial.len() ==> (#[trigger] partial[i]).1.len() == hashes[i].len(),
        0 <= g < full_duplicates(partial, hashes).len(),
        0 <= j < full_duplicates(partial, hashes)[g].1.len(),
    ensures
        exists|i: int, p: int|
            0 <= i < partial.len() && 0 <= p < partial[i].1.len() && #[trigger] partial[i].1[p]
                == full_duplicates(partial, hashes)[g].1[j] && hashes[i][p] == Some(
                full_duplicates(partial, hashes)[g].0,
            ),
{
    let dup = full_duplicates(partial, hashes)[g];
    lemma_full_duplicates_origin(partial, hashes, g);
    let (i, h) = choose|i: int, h: int|
        0 <= i < partial.len() && i < hashes.len() && 0 <= h < full_groups_of(partial[i].1, hashes[i]).len()
            && #[trigger] full_groups_of(partial[i].1, hashes[i])[h] == dup;
    let fs = partial[i].1;
    let hs = hashes[i];
    let kk = known_keys(hs);
    let kf = known_files(fs, hs);
    lemma_known_len(fs, hs);
    lemma_multiples_origin(grouping(kk, kf), h);
    let h2 = choose|h2: int| 0 <= h2 < grouping(kk, kf).len() && grouping(kk, kf)[h2] == multiples(grouping(kk, kf))[h];
    lemma_grouping_origin(kk, kf, h2, j);
    let q = choose|q: int| 0 <= q < kf.len() && kk[q] == grouping(kk, kf)[h2].0 && kf[q] == grouping(kk, kf)[h2].1[j];
    lemma_known_origin(fs, hs, q);
    let p = choose|p: int| 0 <= p < fs.len() && fs[p] == kf[q] && hs[p] == Some(kk[q]);
    assert(partial[i].1[p] == dup.1[j]);
}

/// Files of equal size are candidates together after the first stage.
pub proof fn lemma_equal_sizes_stay_together(files: Seq<FileInfo>, a: int, b: int)
    requires
        0 <= a < b < files.len(),
        files[a].size == files[b].size,
    ensures
        together(size_candidates(files), files[a], files[b]),
{
    assert(sizes_of(files)[a] == files[a].size && sizes_of(files)[b] == files[b].size);
    lemma_same_key_together(sizes_of(files), files, a, b);
    lemma_multiples_together(grouping(sizes_of(files), files), files[a], files[b]);
}

/// Two files of one size group with the same quick fingerprint are candidates together after
/// the second stage.
pub proof fn lemma_equal_samples_stay_together(size_groups: Seq<(u64, Seq<FileInfo>)>, i: int, a: int, b: int)
    requires
        0 <= i < size_groups.len(),
        0 <= a < b < size_groups[i].1.len(),
        partial_key(size_groups[i].1[a]) == partial_key(size_groups[i].1[b]),
    ensures
        together(partial_candidates(size_groups), size_groups[i].1[a], size_groups[i].1[b]),
    decreases size_groups.len(),
{
    let d = size_groups.drop_last();
    let x = size_groups[i].1[a];
    let y = size_groups[i].1[b];
    let prev = partial_candidates(d);
    let fs = size_groups.last().1;
    lemma_merge_all_together(prev, partial_groups_of(fs));
    if i == size_groups.len() - 1 {
        assert(size_groups[i] == size_groups.last());
        assert(partial_keys(fs)[a] == partial_key(x) && partial_keys(fs)[b] == partial_key(y));
        lemma_same_key_together(partial_keys(fs), fs, a, b);
        lemma_multiples_together(grouping(partial_keys(fs), fs), x, y);
        let es = partial_groups_of(fs);
        let (h, k1, k2) = choose|g: int, k1: int, k2: int|
            0 <= g < es.len() && 0 <= k1 < k2 < es[g].1.len() && #[trigger] es[g].1[k1] == x
                && #[trigger] es[g].1[k2] == y;
        assert(together(merge_all(prev, es), es[h].1[k1], es[h].1[k2]));
    } else {
        assert(size_groups[i] == d[i]);
        lemma_equal_samples_stay_together(d, i, a, b);
    }
}

/// Two files of equal size whose first and last 4 KiB are the same are candidates together
/// after the second stage of the search.
pub proof fn lemma_equal_files_are_candidates_together(files: Seq<FileInfo>, a: int, b: int)
    requires
        0 <= a < b < files.len(),
        files[a].size == files[b].size,
        files[a].sample() == files[b].sample(),
    ensures
        together(partial_candidates(size_candidates(files)), files[a], files[b]),
{
    lemma_equal_sizes_stay_together(files, a, b);
    let sc = size_candidates(files);
    let (i, k1, k2) = choose|g: int, k1: int, k2: int|
        0 <= g < sc.len() && 0 <= k1 < k2 < sc[g].1.len() && #[trigger] sc[g].1[k1] == files[a]
            && #[trigger] sc[g].1[k2] == files[b];
    lemma_equal_samples_stay_together(sc, i, k1, k2);
}

proof fn lemma_known_position(files: Seq<FileInfo>, hashes: Seq<Option<Seq<char>>>, p: int, k: Seq<char>)
    requires
        files.len() == hashes.len(),
        0 <= p < files.len(),
        hashes[p] == Some(k),
    ensures
        exists|q: int| 0 <= q < known_files(files, hashes).len() && known_files(files, hashes)[q] == files[p]
            && known_keys(hashes)[q] == k,
    decreases files.len(),
{
    let fd = files.drop_last();
    let hd = hashes.drop_last();
    lemma_known_len(fd, hd);
    lemma_known_len(files, hashes);
    let rf = known_files(fd, hd);
    let rk = known_keys(hd);
    if p == files.len() - 1 {
        assert(hashes.last() == Some(k) && files.last() == files[p]);
        assert(known_files(files, hashes) == rf.push(files[p]));
        assert(known_keys(hashes) == rk.push(k));
        assert(known_files(files, hashes)[rf.len() as int] == files[p]);
        assert(known_keys(hashes)[rf.len() as int] == k);
    } else {
        lemma_known_position(fd, hd, p, k);
        let q = choose|q: int| 0 <= q < rf.len() && rf[q] == fd[p] && rk[q] == k;
        assert(fd[p] == files[p]);
        assert(known_files(files, hashes)[q] == rf[q]);
        assert(known_keys(hashes)[q] == rk[q]);
    }
}

proof fn lemma_known_pair(files: Seq<FileInfo>, hashes: Seq<Option<Seq<char>>>, p1: int, p2: int, k: Seq<char>)
    requires
        files.len() == hashes.len(),
        0 <= p1 < p2 < files.len(),
        hashes[p1] == Some(k),
        hashes[p2] == Some(k),
    ensures
        exists|q1: int, q2: int| 0 <= q1 < q2 < known_files(files, hashes).len()
            && known_files(files, hashes)[q1] == files[p1] && known_files(files, hashes)[q2] == files[p2]
            && known_keys(hashes)[q1] == k && known_keys(hashes)[q2] == k,
    decreases files.len(),
{
    let fd = files.drop_last();
    let hd = hashes.drop_last();
    lemma_known_len(fd, hd);
    lemma_known_len(files, hashes);
    let rf = known_files(fd, hd);
    let rk = known_keys(hd);
    assert(fd[p1] == files[p1] && hd[p1] == hashes[p1]);
    if p2 == files.len() - 1 {
        assert(hashes.last() == Some(k) && files.last() == files[p2]);
        assert(known_files(files, hashes) == rf.push(files[p2]));
        assert(known_keys(hashes) == rk.push(k));
        lemma_known_position(fd, hd, p1, k);
        let q1 = choose|q: int| 0 <= q < rf.len() && rf[q] == fd[p1] && rk[q] == k;
        let q2 = rf.len() as int;
        assert(known_files(files, hashes)[q1] == files[p1] && known_keys(hashes)[q1] == k);
        assert(known_files(files, hashes)[q2] == files[p2] && known_keys(hashes)[q2] == k);
    } else {
        assert(fd[p2] == files[p2] && hd[p2] == hashes[p2]);
        lemma_known_pair(fd, hd, p1, p2, k);
        let (q1, q2) = choose|q1: int, q2: int| 0 <= q1 < q2 < rf.len() && rf[q1] == fd[p1] && rf[q2] == fd[p2]
            && rk[q1] == k && rk[q2] == k;
        assert(known_files(files, hashes)[q1] == rf[q1] && known_keys(hashes)[q1] == rk[q1]);
        assert(known_files(files, hashes)[q2] == rf[q2] && known_keys(hashes)[q2] == rk[q2]);
    }
}

/// Two files of one candidate group whose content fingerprints came out the same are reported
/// together, unless an earlier candidate group already gave that fingerprint (then that
/// earlier group is the one reported for it).
pub proof fn lemma_equal_content_reported_together(
    partial: Seq<(Seq<char>, Seq<FileInfo>)>,
    hashes: Seq<Seq<Option<Seq<char>>>>,
    i: int,
    a: int,
    b: int,
    k: Seq<char>,
)
    requires
        partial.len() == hashes.len(),
        forall|n: int| 0 <= n < partial.len() ==> (#[trigger] partial[n]).1.len() == hashes[n].len(),
        0 <= i < partial.len(),
        0 <= a < b < partial[i].1.len(),
        hashes[i][a] == Some(k),
        hashes[i][b] == Some(k),
        !keys_of(full_duplicates(partial.take(i), hashes.take(i))).contains(k),
    ensures
        together(full_duplicates(partial, hashes), partial[i].1[a], partial[i].1[b]),
    decreases partial.len(),
{
    let n = partial.len() - 1;
    let pd = partial.drop_last();
    let hd = hashes.drop_last();
    let prev = full_duplicates(pd, hd);
    let x = partial[i].1[a];
    let y = partial[i].1[b];
    if i == n {
        assert(partial.take(i) =~= pd && hashes.take(i) =~= hd);
        let fs = partial[i].1;
        let hs = hashes[i];
        assert(partial.last() == partial[i] && hashes.last() == hs);
        lemma_known_pair(fs, hs, a, b, k);
        let kf = known_files(fs, hs);
        let kk = known_keys(hs);
        lemma_known_len(fs, hs);
        let (q1, q2) = choose|q1: int, q2: int| 0 <= q1 < q2 < kf.len() && kf[q1] == fs[a] && kf[q2] == fs[b]
            && kk[q1] == k && kk[q2] == k;
        lemma_same_key_same_group(kk, kf, q1, q2);
        let gr = grouping(kk, kf);
        let (g, j1, j2) = choose|g: int, j1: int, j2: int|
            0 <= g < gr.len() && 0 <= j1 < j2 < gr[g].1.len() && gr[g].0 == kk[q1]
                && #[trigger] gr[g].1[j1] == kf[q1] && #[trigger] gr[g].1[j2] == kf[q2];
        lemma_multiples_keeps_large(gr, g);
        let es = full_groups_of(fs, hs);
        let h = choose|h: int| 0 <= h < es.len() && es[h] == gr[g];
        lemma_grouping_distinct(kk, kf);
        lemma_multiples_keep(gr);
        assert(es[h].0 == k);
        lemma_add_all_together(prev, es, h, j1, j2);
    } else {
        assert(partial[i] == pd[i] && hashes[i] == hd[i]);
        assert(pd.take(i) =~= partial.take(i) && hd.take(i) =~= hashes.take(i));
        assert forall|m: int| 0 <= m < pd.len() implies (#[trigger] pd[m]).1.len() == hd[m].len() by {
            assert(pd[m] == partial[m] && hd[m] == hashes[m]);
        }
        lemma_equal_content_reported_together(pd, hd, i, a, b, k);
        lemma_add_all_keeps_together(prev, full_groups_of(partial.last().1, hashes.last()), x, y);
    }
}

/// The size groups of `find_same_size_files_recursive_parallel` are a partition of the scanned
/// files: one group per size, no group empty, every file of a group of the group's size, and
/// the groups together holding every file exactly as many times as the scan found it.
pub proof fn lemma_size_groups_partition(files: Seq<FileInfo>)
    ensures
        keys_of(grouping(sizes_of(files), files)).no_duplicates(),
        forall|g: int| 0 <= g < grouping(sizes_of(files), files).len()
            ==> (#[trigger] grouping(sizes_of(files), files)[g]).1.len() > 0,
        members_keyed(grouping(sizes_of(files), files), size_key()),
        members_multiset(grouping(sizes_of(files), files)) =~= files.to_multiset(),
{
    lemma_grouping_distinct(sizes_of(files), files);
    lemma_grouping_keyed(files, size_key());
    lemma_grouping_partitions(sizes_of(files), files);
}

} // verus!

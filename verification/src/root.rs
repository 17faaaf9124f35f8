//! The summary of the whole tree.

use vstd::prelude::*;
use crate::directory::directory_summary;
use crate::directory::has_png_file;
use crate::directory::retained_frames;
use crate::directory::SpriteFileView;
use crate::options::Options;
use crate::string_map::StringMap;
use crate::summary::RootView;
use crate::summary::SpriteSourceMap;
use crate::summary::SpriteSourceRootSummary;
use crate::summary::SpriteSourceSummary;
use crate::summary::SpriteSourceView;
use crate::summary::SummaryError;

verus! {

/// How many levels below the root folder directories are looked for.
pub const MAX_DEPTH: usize = 2;

/// What the directories of a tree have yielded, in the order of the
/// directories, as values.
pub open spec fn result_views(results: Seq<Option<SpriteSourceSummary>>) -> Seq<
    Option<SpriteSourceView>,
> {
    results.map_values(
        |result: Option<SpriteSourceSummary>|
            match result {
                Some(directory) => Some(directory@),
                None => None,
            },
    )
}

/// A directory's result stays in the summary of the tree: the directory has
/// a summary, and the summary counts at least one frame.
pub open spec fn is_retained(result: Option<SpriteSourceView>) -> bool {
    result matches Some(directory) && directory.count > 0
}

/// The summaries that stay, in the order of the directories.
pub open spec fn retained_directories(results: Seq<Option<SpriteSourceView>>) -> Seq<
    SpriteSourceView,
>
    decreases results.len(),
{
    if results.len() == 0 {
        Seq::empty()
    } else {
        let front = retained_directories(results.drop_last());
        if is_retained(results.last()) {
            front.push(results.last()->0)
        } else {
            front
        }
    }
}

/// The sum of the frame counts of the directories.
pub open spec fn total_frames(directories: Seq<SpriteSourceView>) -> nat
    decreases directories.len(),
{
    if directories.len() == 0 {
        0
    } else {
        total_frames(directories.drop_last()) + directories.last().count
    }
}

/// The directories by path; of two directories with one path the later one
/// stays.
pub open spec fn directories_by_path(directories: Seq<SpriteSourceView>) -> Map<
    Seq<char>,
    SpriteSourceView,
>
    decreases directories.len(),
{
    if directories.len() == 0 {
        Map::empty()
    } else {
        directories_by_path(directories.drop_last()).insert(
            directories.last().path,
            directories.last(),
        )
    }
}

/// The summary of a tree, given what each of its directories has yielded:
/// the number of directories that stay, the sum of their frame counts, and
/// those directories by path.
pub open spec fn root_summary(results: Seq<Option<SpriteSourceView>>) -> RootView {
    let directories = retained_directories(results);
    RootView {
        sprite_count: directories.len(),
        frame_count: total_frames(directories),
        sprites: directories_by_path(directories),
    }
}

/// Of the first results no more stay than of all of them.
proof fn lemma_retained_prefix(results: Seq<Option<SpriteSourceView>>, n: int)
    requires
        0 <= n <= results.len(),
    ensures
        retained_directories(results.take(n)).len() <= retained_directories(results).len(),
    decreases results.len() - n,
{
    if n < results.len() {
        assert(results.take(n + 1).drop_last() == results.take(n));
        lemma_retained_prefix(results, n + 1);
    } else {
        assert(results.take(n) == results);
    }
}

/// Gathers what the directories of a tree have yielded into the summary of
/// the tree. Directories without a summary and summaries without a frame are
/// left out. A summary counts at most 65535 directories: where more stay,
/// there is an error in its place.
pub fn update_sprite_source_summary(results: Vec<Option<SpriteSourceSummary>>) -> (result: Result<
    SpriteSourceRootSummary,
    SummaryError,
>)
    ensures
        match result {
            Ok(root) => {
                &&& retained_directories(result_views(results@)).len() <= u16::MAX
                &&& root@ == root_summary(result_views(results@))
            },
            Err(error) => {
                &&& error == SummaryError::TooManySprites
                &&& retained_directories(result_views(results@)).len() > u16::MAX
            },
        },
{
    let ghost all = result_views(results@);
    let mut sprite_count: u16 = 0;
    let mut frame_count: u32 = 0;
    let mut sprites: SpriteSourceMap = StringMap::new();
    assert(all.take(0) == Seq::<Option<SpriteSourceView>>::empty());
    for result in it: results.into_iter()
        invariant
            result_views(it.seq()) == all,
            sprite_count == retained_directories(all.take(it.index() as int)).len(),
            frame_count == total_frames(retained_directories(all.take(it.index() as int))),
            frame_count <= 65535 * sprite_count,
            sprites@ == directories_by_path(retained_directories(all.take(it.index() as int))),
    {
        proof {
            let n = it.index() as int;
            assert(all.take(n + 1).drop_last() == all.take(n));
            assert(all[n] == result_views(it.seq())[n]);
            lemma_retained_prefix(all, n + 1);
            if is_retained(all[n]) {
                assert(retained_directories(all.take(n + 1)).drop_last() == retained_directories(
                    all.take(n),
                ));
            }
        }
        match result {
            Some(directory) => {
                if directory.count > 0 {
                    if sprite_count == 65535 {
                        return Err(SummaryError::TooManySprites);
                    }
                    sprite_count += 1;
                    frame_count += directory.count as u32;
                    sprites.insert(directory.path.clone(), directory);
                }
            },
            None => {},
        }
    }
    assert(all.take(all.len() as int) == all);
    Ok(SpriteSourceRootSummary { sprite_count, frame_count, sprites })
}

/// No two of the results that stay have the same path.
pub open spec fn distinct_retained_paths(results: Seq<Option<SpriteSourceView>>) -> bool {
    forall|i: int, j: int|
        0 <= i < results.len() && 0 <= j < results.len() && i != j && is_retained(
            #[trigger] results[i],
        ) && is_retained(#[trigger] results[j]) ==> results[i]->0.path != results[j]->0.path
}

/// No path occurs twice among the directories.
spec fn distinct_paths(directories: Seq<SpriteSourceView>) -> bool {
    forall|i: int, j: int|
        0 <= i < directories.len() && 0 <= j < directories.len() && i != j ==> (
        #[trigger] directories[i]).path != (#[trigger] directories[j]).path
}

/// The sum of the frame counts of all directories that a summary of a tree
/// holds.
pub open spec fn counted_frames(sprites: Map<Seq<char>, SpriteSourceView>) -> nat
    decreases sprites.dom().len(),
    when sprites.dom().finite()
{
    if sprites.dom().len() > 0 {
        let path = sprites.dom().choose();
        sprites[path].count + counted_frames(sprites.remove(path))
    } else {
        0
    }
}

/// The sum of the frame counts can be taken with any directory first.
proof fn lemma_counted_frames_remove(sprites: Map<Seq<char>, SpriteSourceView>, path: Seq<char>)
    requires
        sprites.dom().finite(),
        sprites.contains_key(path),
    ensures
        counted_frames(sprites) == sprites[path].count + counted_frames(sprites.remove(path)),
    decreases sprites.dom().len(),
{
    let chosen = sprites.dom().choose();
    if chosen != path {
        assert(sprites.remove(chosen).remove(path) == sprites.remove(path).remove(chosen));
        lemma_counted_frames_remove(sprites.remove(chosen), path);
        lemma_counted_frames_remove(sprites.remove(path), chosen);
    }
}

/// Among directories with distinct paths, the summary of the tree holds each
/// of them, and counts their frames to the sum of their frame counts.
proof fn lemma_distinct_directories_counted(directories: Seq<SpriteSourceView>)
    requires
        distinct_paths(directories),
    ensures
        directories_by_path(directories).dom().finite(),
        directories_by_path(directories).dom().len() == directories.len(),
        counted_frames(directories_by_path(directories)) == total_frames(directories),
        forall|path: Seq<char>|
            directories_by_path(directories).contains_key(path) ==> exists|i: int|
                0 <= i < directories.len() && (#[trigger] directories[i]).path == path,
    decreases directories.len(),
{
    if directories.len() > 0 {
        let front = directories.drop_last();
        let last = directories.last();
        assert(distinct_paths(front)) by {
            assert forall|i: int, j: int|
                0 <= i < front.len() && 0 <= j < front.len() && i != j implies (
            #[trigger] front[i]).path != (#[trigger] front[j]).path by {
                assert(front[i] == directories[i] && front[j] == directories[j]);
            }
        }
        lemma_distinct_directories_counted(front);
        let before = directories_by_path(front);
        let after = directories_by_path(directories);
        assert(!before.contains_key(last.path)) by {
            if before.contains_key(last.path) {
                let i = choose|i: int| 0 <= i < front.len() && (#[trigger] front[i]).path
                    == last.path;
                assert(directories[i] == front[i]);
                assert(directories[directories.len() - 1] == last);
            }
        }
        assert(after.remove(last.path) == before);
        lemma_counted_frames_remove(after, last.path);
        assert forall|path: Seq<char>| after.contains_key(path) implies exists|i: int|
            0 <= i < directories.len() && (#[trigger] directories[i]).path == path by {
            if path == last.path {
                assert(directories[directories.len() - 1].path == path);
            } else {
                let i = choose|i: int| 0 <= i < front.len() && (#[trigger] front[i]).path
                    == path;
                assert(directories[i] == front[i]);
            }
        }
    }
}

/// A directory without a file with the extension `png` is absent from the
/// summary of the tree: its path holds nothing there, unless another
/// directory was handed in under the same path.
pub proof fn lemma_directory_without_png_is_absent(
    results: Seq<Option<SpriteSourceView>>,
    i: int,
    path: Seq<char>,
    dir_summary: Option<SpriteSourceView>,
    files: Seq<SpriteFileView>,
    options: Options,
)
    requires
        0 <= i < results.len(),
        !has_png_file(files),
        results[i] == directory_summary(path, dir_summary, files, options),
        forall|j: int|
            0 <= j < results.len() && j != i && (#[trigger] results[j]) is Some
                ==> results[j]->0.path != path,
    ensures
        !root_summary(results).sprites.contains_key(path),
{
    lemma_root_holds_retained(results, path);
}

/// A directory whose files yield no frame is absent from the summary of the
/// tree as well, unless another directory was handed in under the same path.
pub proof fn lemma_directory_without_frames_is_absent(
    results: Seq<Option<SpriteSourceView>>,
    i: int,
    path: Seq<char>,
    dir_summary: Option<SpriteSourceView>,
    files: Seq<SpriteFileView>,
    options: Options,
)
    requires
        0 <= i < results.len(),
        retained_frames(dir_summary, files, options).len() == 0,
        results[i] == directory_summary(path, dir_summary, files, options),
        forall|j: int|
            0 <= j < results.len() && j != i && (#[trigger] results[j]) is Some
                ==> results[j]->0.path != path,
    ensures
        !root_summary(results).sprites.contains_key(path),
{
    lemma_root_holds_retained(results, path);
}

/// The frame count of the tree is the sum of the frame counts of the
/// directories that its summary holds, and the sprite count is their number,
/// provided that no two of the results that stay have the same path.
pub proof fn lemma_frame_count_is_sum(results: Seq<Option<SpriteSourceView>>)
    requires
        distinct_retained_paths(results),
    ensures
        root_summary(results).sprites.dom().finite(),
        root_summary(results).frame_count == counted_frames(root_summary(results).sprites),
        root_summary(results).sprite_count == root_summary(results).sprites.dom().len(),
{
    lemma_distinct_retained(results);
    lemma_distinct_directories_counted(retained_directories(results));
}

/// The summary of a tree does not depend on the order in which its
/// directories were summarized: any rearrangement of the same results gives
/// the same summary, provided that no two of the results that stay have the
/// same path.
pub proof fn lemma_root_summary_any_order(
    first: Seq<Option<SpriteSourceView>>,
    second: Seq<Option<SpriteSourceView>>,
)
    requires
        first.to_multiset() == second.to_multiset(),
        distinct_retained_paths(first),
    ensures
        root_summary(first) == root_summary(second),
{
    lemma_counts_any_order(first, second);
    first.to_multiset_ensures();
    second.to_multiset_ensures();
    let one = root_summary(first).sprites;
    let other = root_summary(second).sprites;
    assert forall|path: Seq<char>| one.contains_key(path) == other.contains_key(path) by {
        lemma_root_holds_retained(first, path);
        lemma_root_holds_retained(second, path);
        if one.contains_key(path) {
            let i = choose|i: int|
                0 <= i < first.len() && is_retained(#[trigger] first[i]) && first[i]->0.path
                    == path;
            assert(first.contains(first[i]));
            assert(first.to_multiset().count(first[i]) > 0);
            assert(second.contains(first[i]));
            let k = choose|k: int| 0 <= k < second.len() && second[k] == first[i];
            assert(is_retained(second[k]) && second[k]->0.path == path);
        }
        if other.contains_key(path) {
            let i = choose|i: int|
                0 <= i < second.len() && is_retained(#[trigger] second[i]) && second[i]->0.path
                    == path;
            assert(second.contains(second[i]));
            assert(second.to_multiset().count(second[i]) > 0);
            assert(first.contains(second[i]));
            let k = choose|k: int| 0 <= k < first.len() && first[k] == second[i];
            assert(is_retained(first[k]) && first[k]->0.path == path);
        }
    }
    assert forall|path: Seq<char>| one.contains_key(path) implies one[path] == other[path] by {
        lemma_root_holds_retained(first, path);
        lemma_root_holds_retained(second, path);
        let i = choose|i: int|
            0 <= i < first.len() && is_retained(#[trigger] first[i]) && first[i]->0.path == path
                && one[path] == first[i]->0;
        let j = choose|j: int|
            0 <= j < second.len() && is_retained(#[trigger] second[j]) && second[j]->0.path
                == path && other[path] == second[j]->0;
        assert(second.contains(second[j]));
        assert(second.to_multiset().count(second[j]) > 0);
        assert(first.contains(second[j]));
        let k = choose|k: int| 0 <= k < first.len() && first[k] == second[j];
        assert(is_retained(first[k]) && first[k]->0.path == path);
        assert(k == i);
    }
    assert(one =~= other);
}

/// The summary of a tree holds a directory under a path exactly if one of
/// the results that stay has that path, and what it holds there is one of
/// those results.
pub proof fn lemma_root_holds_retained(results: Seq<Option<SpriteSourceView>>, path: Seq<char>)
    ensures
        root_summary(results).sprites.contains_key(path) <==> exists|i: int|
            0 <= i < results.len() && is_retained(#[trigger] results[i]) && results[i]->0.path
                == path,
        root_summary(results).sprites.contains_key(path) ==> exists|i: int|
            0 <= i < results.len() && is_retained(#[trigger] results[i]) && results[i]->0.path
                == path && root_summary(results).sprites[path] == results[i]->0,
    decreases results.len(),
{
    if results.len() > 0 {
        let front = results.drop_last();
        let last = results.len() - 1;
        lemma_root_holds_retained(front, path);
        if is_retained(results.last()) {
            assert(retained_directories(results).drop_last() == retained_directories(front));
        }
        if root_summary(results).sprites.contains_key(path) {
            if is_retained(results.last()) && results.last()->0.path == path {
                assert(is_retained(results[last]) && results[last]->0.path == path
                    && root_summary(results).sprites[path] == results[last]->0);
            } else {
                let i = choose|i: int|
                    0 <= i < front.len() && is_retained(#[trigger] front[i]) && front[i]->0.path
                        == path && root_summary(front).sprites[path] == front[i]->0;
                assert(results[i] == front[i]);
            }
        }
        if exists|i: int|
            0 <= i < results.len() && is_retained(#[trigger] results[i]) && results[i]->0.path
                == path {
            let i = choose|i: int|
                0 <= i < results.len() && is_retained(#[trigger] results[i])
                    && results[i]->0.path == path;
            if i < last {
                assert(front[i] == results[i]);
            }
        }
    }
}

/// Each directory that stays is one of the results.
proof fn lemma_retained_is_member(results: Seq<Option<SpriteSourceView>>, k: int)
    requires
        0 <= k < retained_directories(results).len(),
    ensures
        exists|i: int|
            0 <= i < results.len() && is_retained(#[trigger] results[i]) && results[i]->0
                == retained_directories(results)[k],
    decreases results.len(),
{
    let front = results.drop_last();
    let last = results.len() - 1;
    if is_retained(results.last()) && k == retained_directories(front).len() {
        assert(is_retained(results[last]) && results[last]->0 == retained_directories(results)[k]);
    } else {
        lemma_retained_is_member(front, k);
        let i = choose|i: int|
            0 <= i < front.len() && is_retained(#[trigger] front[i]) && front[i]->0
                == retained_directories(front)[k];
        assert(results[i] == front[i]);
    }
}

/// Results of which no two that stay have the same path leave directories
/// with distinct paths.
proof fn lemma_distinct_retained(results: Seq<Option<SpriteSourceView>>)
    requires
        distinct_retained_paths(results),
    ensures
        distinct_paths(retained_directories(results)),
    decreases results.len(),
{
    if results.len() > 0 {
        let front = results.drop_last();
        let last = results.len() - 1;
        assert(distinct_retained_paths(front)) by {
            assert forall|i: int, j: int|
                0 <= i < front.len() && 0 <= j < front.len() && i != j && is_retained(
                    #[trigger] front[i],
                ) && is_retained(#[trigger] front[j]) implies front[i]->0.path
                != front[j]->0.path by {
                assert(front[i] == results[i] && front[j] == results[j]);
            }
        }
        lemma_distinct_retained(front);
        let kept = retained_directories(results);
        let before = retained_directories(front);
        if is_retained(results.last()) {
            assert forall|a: int, b: int|
                0 <= a < kept.len() && 0 <= b < kept.len() && a != b implies (
            #[trigger] kept[a]).path != (#[trigger] kept[b]).path by {
                if a < before.len() && b < before.len() {
                    assert(kept[a] == before[a] && kept[b] == before[b]);
                } else {
                    let inner = if a < before.len() { a } else { b };
                    lemma_retained_is_member(front, inner);
                    let i = choose|i: int|
                        0 <= i < front.len() && is_retained(#[trigger] front[i]) && front[i]->0
                            == before[inner];
                    assert(results[i] == front[i]);
                    assert(is_retained(results[last]));
                    assert(kept[inner] == before[inner]);
                }
            }
        }
    }
}

/// Taking one result out takes one directory, with its frames, out of those
/// that stay, if that result stays, and none otherwise.
proof fn lemma_retained_remove(results: Seq<Option<SpriteSourceView>>, j: int)
    requires
        0 <= j < results.len(),
    ensures
        retained_directories(results).len() == retained_directories(results.remove(j)).len() + (
        if is_retained(results[j]) {
            1nat
        } else {
            0nat
        }),
        total_frames(retained_directories(results)) == total_frames(
            retained_directories(results.remove(j)),
        ) + (if is_retained(results[j]) {
            results[j]->0.count
        } else {
            0nat
        }),
    decreases results.len(),
{
    let front = results.drop_last();
    if j == results.len() - 1 {
        assert(results.remove(j) == front);
        if is_retained(results.last()) {
            assert(retained_directories(results).drop_last() == retained_directories(front));
        }
    } else {
        let rest = results.remove(j);
        assert(rest.drop_last() == front.remove(j));
        assert(rest.last() == results.last());
        lemma_retained_remove(front, j);
        if is_retained(results.last()) {
            assert(retained_directories(results).drop_last() == retained_directories(front));
            assert(retained_directories(rest).drop_last() == retained_directories(
                front.remove(j),
            ));
        }
    }
}

/// The number of the directories that stay and the sum of their frame counts
/// do not depend on the order of the results.
proof fn lemma_counts_any_order(
    first: Seq<Option<SpriteSourceView>>,
    second: Seq<Option<SpriteSourceView>>,
)
    requires
        first.to_multiset() == second.to_multiset(),
    ensures
        retained_directories(first).len() == retained_directories(second).len(),
        total_frames(retained_directories(first)) == total_frames(retained_directories(second)),
    decreases first.len(),
{
    first.to_multiset_ensures();
    second.to_multiset_ensures();
    if first.len() > 0 {
        let last = first.last();
        assert(first.contains(last)) by {
            assert(first[first.len() - 1] == last);
        }
        assert(first.to_multiset().count(last) > 0);
        assert(second.to_multiset().count(last) > 0);
        assert(second.contains(last));
        let j = choose|j: int| 0 <= j < second.len() && second[j] == last;
        assert(first.remove(first.len() - 1) == first.drop_last());
        assert(first.drop_last().to_multiset() == second.remove(j).to_multiset());
        lemma_counts_any_order(first.drop_last(), second.remove(j));
        lemma_retained_remove(second, j);
        if is_retained(last) {
            assert(retained_directories(first).drop_last() == retained_directories(
                first.drop_last(),
            ));
        }
    }
}

} // verus!

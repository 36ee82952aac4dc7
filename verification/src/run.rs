//! The collection orchestrator: drives validation and extraction over a
//! resolved, ordered list of input files and renders the accumulated
//! character set as one sorted, de-duplicated sequence.

use vstd::prelude::*;
use vstd::slice::slice_index_get;
use vstd::utf8::valid_utf8;
use crate::charset::lemma_render_of;
use crate::charset::lemma_sorted_render;
use crate::charset::sorted_render;
use crate::charset::sorted_unique;
use crate::collect::checked_prefix;
use crate::collect::content_chars;
use crate::collect::content_is_text;
use crate::collect::extract_into;
use crate::collect::lemma_content_chars_clean;
use crate::collect::FileInput;
use crate::merge::merged;

verus! {

/// The characters one resolved file contributes to a run: nothing when the
/// file is unreadable or its checked prefix is not text, its content's
/// characters otherwise.
pub open spec fn file_chars(f: FileInput) -> Set<char> {
    match f {
        FileInput::Unreadable => Set::empty(),
        FileInput::Content(b) => {
            if valid_utf8(checked_prefix(b@)) {
                content_chars(b@)
            } else {
                Set::empty()
            }
        },
    }
}

/// The characters a whole run collects: the union of every resolved file's
/// contribution.
pub open spec fn run_chars(fs: Seq<FileInput>) -> Set<char>
    decreases fs.len(),
{
    if fs.len() == 0 {
        Set::empty()
    } else {
        run_chars(fs.drop_last()).union(file_chars(fs.last()))
    }
}

/// Why a whole run fails: the resolved file list was empty.
#[derive(Clone, Copy, Debug, PartialEq, Eq, Structural)]
pub enum RunError {
    NoInputFiles,
}

/// One file's contribution is a finite set without line terminators.
pub proof fn lemma_file_chars_clean(f: FileInput)
    ensures
        file_chars(f).finite(),
        !file_chars(f).contains('\n'),
        !file_chars(f).contains('\r'),
{
    match f {
        FileInput::Unreadable => {
        },
        FileInput::Content(b) => {
            if valid_utf8(checked_prefix(b@)) {
                lemma_content_chars_clean(b@);
            }
        },
    }
}

/// Law: whatever the input files hold, the characters a run collects form a
/// finite set that never includes a line feed or a carriage return.
pub proof fn lemma_run_chars_clean(fs: Seq<FileInput>)
    ensures
        run_chars(fs).finite(),
        !run_chars(fs).contains('\n'),
        !run_chars(fs).contains('\r'),
    decreases fs.len(),
{
    if fs.len() == 0 {
    } else {
        lemma_run_chars_clean(fs.drop_last());
        lemma_file_chars_clean(fs.last());
        vstd::set_lib::lemma_set_union_finite_iff(
            run_chars(fs.drop_last()),
            file_chars(fs.last()),
        );
    }
}

/// Law: a run's rendered output is strictly ascending, holds no duplicate,
/// and holds no line feed or carriage return.
pub proof fn lemma_run_output_clean(fs: Seq<FileInput>)
    ensures
        sorted_unique(sorted_render(run_chars(fs))),
        !sorted_render(run_chars(fs)).contains('\n'),
        !sorted_render(run_chars(fs)).contains('\r'),
{
    lemma_run_chars_clean(fs);
    lemma_sorted_render(run_chars(fs));
    if sorted_render(run_chars(fs)).contains('\n') {
        assert(sorted_render(run_chars(fs)).to_set().contains('\n'));
    }
    if sorted_render(run_chars(fs)).contains('\r') {
        assert(sorted_render(run_chars(fs)).to_set().contains('\r'));
    }
}

/// Law: a run over two file lists laid end to end collects the union of the
/// two runs' sets.
pub proof fn lemma_run_chars_concat(fs1: Seq<FileInput>, fs2: Seq<FileInput>)
    ensures
        run_chars(fs1 + fs2) == run_chars(fs1).union(run_chars(fs2)),
    decreases fs2.len(),
{
    if fs2.len() == 0 {
        assert(fs1 + fs2 =~= fs1);
        assert(run_chars(fs1).union(run_chars(fs2)) =~= run_chars(fs1));
    } else {
        lemma_run_chars_concat(fs1, fs2.drop_last());
        assert((fs1 + fs2).drop_last() =~= fs1 + fs2.drop_last());
        assert((fs1 + fs2).last() == fs2.last());
        assert(run_chars(fs1).union(run_chars(fs2.drop_last())).union(file_chars(fs2.last()))
            =~= run_chars(fs1).union(run_chars(fs2)));
    }
}

/// Law: the caller-determined order of the resolved files does not affect
/// what a run collects — swapping whole batches yields the same characters,
/// and hence the same sorted output.
pub proof fn lemma_run_chars_order(fs1: Seq<FileInput>, fs2: Seq<FileInput>)
    ensures
        run_chars(fs1 + fs2) == run_chars(fs2 + fs1),
{
    lemma_run_chars_concat(fs1, fs2);
    lemma_run_chars_concat(fs2, fs1);
    assert(run_chars(fs1).union(run_chars(fs2)) =~= run_chars(fs2).union(run_chars(fs1)));
}

/// The sequence obtained by collecting each file on its own and merging the
/// per-file renderings one at a time into a running result.
pub open spec fn incremental_merge(fs: Seq<FileInput>) -> Seq<char>
    decreases fs.len(),
{
    if fs.len() == 0 {
        Seq::empty()
    } else {
        merged(incremental_merge(fs.drop_last()), sorted_render(file_chars(fs.last())))
    }
}

/// Law: merging per-file collection results one file at a time yields exactly
/// the whole run's collection over the same files.
pub proof fn lemma_incremental_merge_is_run(fs: Seq<FileInput>)
    ensures
        incremental_merge(fs) == sorted_render(run_chars(fs)),
    decreases fs.len(),
{
    if fs.len() == 0 {
        assert(Seq::<char>::empty().to_set() =~= Set::<char>::empty());
        lemma_render_of(Seq::<char>::empty());
    } else {
        let front = fs.drop_last();
        let f = fs.last();
        lemma_incremental_merge_is_run(front);
        lemma_run_chars_clean(front);
        lemma_file_chars_clean(f);
        lemma_sorted_render(run_chars(front));
        lemma_sorted_render(file_chars(f));
        assert(sorted_render(run_chars(front)).to_set().union(
            sorted_render(file_chars(f)).to_set(),
        ) =~= run_chars(front).union(file_chars(f)));
    }
}

/// Runs collection over a resolved, ordered list of input files: validates
/// each file, extracts the text ones, skips the unreadable and non-text ones,
/// and renders the accumulated set sorted ascending. An empty resolved list
/// is the run's one fatal condition.
pub fn collect_run(files: &Vec<FileInput>) -> (r: Result<Vec<char>, RunError>)
    ensures
        r is Err <==> files@.len() == 0,
        r is Err ==> r == Err::<Vec<char>, RunError>(RunError::NoInputFiles),
        r matches Ok(v) ==> sorted_unique(v@) && v@.to_set() == run_chars(files@) && v@
            == sorted_render(run_chars(files@)),
{
    if files.len() == 0 {
        return Err(RunError::NoInputFiles);
    }
    let mut v: Vec<char> = Vec::new();
    let n = files.len();
    let mut i: usize = 0;
    proof {
        assert(files@.subrange(0, 0) =~= Seq::<FileInput>::empty());
        assert(v@.to_set() =~= run_chars(files@.subrange(0, 0)));
    }
    while i < n
        invariant
            n == files@.len(),
            0 <= i <= n,
            sorted_unique(v@),
            v@.to_set() == run_chars(files@.subrange(0, i as int)),
        decreases n - i,
    {
        let f: &FileInput = slice_index_get(files.as_slice(), i);
        let ghost pre = v@;
        match f {
            FileInput::Unreadable => {
                proof {
                    assert(v@.to_set() =~= pre.to_set().union(file_chars(*f)));
                }
            },
            FileInput::Content(b) => {
                let data: &[u8] = b.as_slice();
                if content_is_text(data) {
                    extract_into(&mut v, data);
                    proof {
                        assert(v@.to_set() =~= pre.to_set().union(file_chars(*f)));
                    }
                } else {
                    proof {
                        assert(v@.to_set() =~= pre.to_set().union(file_chars(*f)));
                    }
                }
            },
        }
        proof {
            assert(files@.subrange(0, i + 1).drop_last() =~= files@.subrange(0, i as int));
            assert(files@.subrange(0, i + 1).last() == files@[i as int]);
            assert(v@.to_set() =~= run_chars(files@.subrange(0, i + 1)));
        }
        i = i + 1;
    }
    proof {
        assert(files@.subrange(0, n as int) =~= files@);
        lemma_render_of(v@);
    }
    Ok(v)
}

} // verus!

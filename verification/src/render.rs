//! The display renderer: an ordered sequence of entries in, one labeled
//! display block per entry out, or a placeholder line when there is
//! nothing to show.

use vstd::prelude::*;

use crate::entry::DictEntry;
use crate::entry::EntryModel;
use crate::entry::entries_view;

verus! {

/// Mathematical model of one display block: the headword, the phonetic
/// transcription shown beside it, and one bulleted line per gloss.
pub struct BlockModel {
    pub headword: Seq<char>,
    pub phonetic: Seq<char>,
    pub gloss_lines: Seq<Seq<char>>,
}

/// One display block, ready to be drawn by whatever widget toolkit hosts
/// the pipeline.
#[derive(Debug, PartialEq, Eq, Clone)]
pub struct DisplayBlock {
    pub headword: String,
    pub phonetic: String,
    pub gloss_lines: Vec<String>,
}

impl View for DisplayBlock {
    type V = BlockModel;

    open spec fn view(&self) -> BlockModel {
        BlockModel {
            headword: self.headword@,
            phonetic: self.phonetic@,
            gloss_lines: self.gloss_lines.deep_view(),
        }
    }
}

impl DeepView for DisplayBlock {
    type V = BlockModel;

    open spec fn deep_view(&self) -> BlockModel {
        self.view()
    }
}

/// Mathematical model of what one frame shows.
pub enum RenderModel {
    Placeholder(Seq<char>),
    Blocks(Seq<BlockModel>),
}

/// What one frame shows: either the muted placeholder line, or the blocks
/// for the current matches, in match order.
#[derive(Debug, PartialEq, Eq, Clone)]
pub enum RenderOutput {
    Placeholder(String),
    Blocks(Vec<DisplayBlock>),
}

impl View for RenderOutput {
    type V = RenderModel;

    open spec fn view(&self) -> RenderModel {
        match self {
            RenderOutput::Placeholder(text) => RenderModel::Placeholder(text@),
            RenderOutput::Blocks(blocks) => RenderModel::Blocks(blocks.deep_view()),
        }
    }
}

/// A gloss is shown as its own line behind a bullet.
pub open spec fn gloss_line(gloss: Seq<char>) -> Seq<char> {
    "\u{2022} "@ + gloss
}

/// The block an entry is shown as.
pub open spec fn block_model(e: EntryModel) -> BlockModel {
    BlockModel {
        headword: e.simplified,
        phonetic: e.pinyin_marks,
        gloss_lines: e.english.map_values(|g: Seq<char>| gloss_line(g)),
    }
}

/// The line shown when there are no matches to draw.
pub open spec fn placeholder_view() -> Seq<char> {
    "Search some english word"@
}

/// What the renderer shows for a given entry sequence.
pub open spec fn render_model(entries: Seq<EntryModel>) -> RenderModel {
    if entries.len() == 0 {
        RenderModel::Placeholder(placeholder_view())
    } else {
        RenderModel::Blocks(entries.map_values(|e: EntryModel| block_model(e)))
    }
}

/// Builds the display block for one entry.
pub fn render_block(e: &DictEntry) -> (b: DisplayBlock)
    ensures
        b@ == block_model(e@),
{
    let mut gloss_lines: Vec<String> = Vec::new();
    let mut i: usize = 0;
    while i < e.english.len()
        invariant
            i <= e.english.len(),
            gloss_lines@.len() == i,
            forall|j: int| 0 <= j < i ==> gloss_lines@[j]@ == gloss_line(e.english@[j]@),
        decreases e.english@.len() - i,
    {
        let mut line = String::from_str("\u{2022} ");
        line.append(e.english[i].as_str());
        gloss_lines.push(line);
        i = i + 1;
    }
    let b = DisplayBlock {
        headword: e.simplified.clone(),
        phonetic: e.pinyin_marks.clone(),
        gloss_lines,
    };
    proof {
        assert(b@.gloss_lines =~= block_model(e@).gloss_lines);
    }
    b
}

/// Renders a result sequence: the placeholder when it is empty, otherwise
/// exactly one block per entry, in the order of the entries.  The output
/// is a value; drawing it is the host's business.
pub fn render(entries: &Vec<DictEntry>) -> (out: RenderOutput)
    ensures
        out@ == render_model(entries_view(entries@)),
{
    if entries.len() == 0 {
        proof {
            assert(entries_view(entries@).len() == 0);
        }
        RenderOutput::Placeholder(String::from_str("Search some english word"))
    } else {
        let mut blocks: Vec<DisplayBlock> = Vec::new();
        let mut i: usize = 0;
        while i < entries.len()
            invariant
                i <= entries.len(),
                blocks@.len() == i,
                forall|j: int| 0 <= j < i ==> blocks@[j]@ == block_model(entries@[j]@),
            decreases entries@.len() - i,
        {
            blocks.push(render_block(&entries[i]));
            i = i + 1;
        }
        let out = RenderOutput::Blocks(blocks);
        proof {
            assert(entries_view(entries@).len() == entries@.len());
            assert(out@->Blocks_0 =~= render_model(entries_view(entries@))->Blocks_0);
        }
        out
    }
}

/// One display block per entry, in entry order: for a non-empty sequence
/// the renderer's output is the blocks of the entries, index by index.
pub proof fn lemma_one_block_per_entry(entries: Seq<EntryModel>)
    requires
        entries.len() > 0,
    ensures
        render_model(entries) matches RenderModel::Blocks(blocks)
            && blocks.len() == entries.len()
            && (forall|i: int| 0 <= i < entries.len() ==> blocks[i] == block_model(entries[i])),
{
}

/// Rendering is idempotent: it mutates nothing, so two renderings of one
/// and the same entry sequence show one and the same output.
pub proof fn lemma_render_idempotent(
    entries: Seq<EntryModel>,
    first: RenderModel,
    second: RenderModel,
)
    requires
        first == render_model(entries),
        second == render_model(entries),
    ensures
        first == second,
{
}

} // verus!

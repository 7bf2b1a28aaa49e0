//! Classification of the raw change flags of one path.
use vstd::prelude::*;

verus! {

/// The raw change flags that the status source reports for one path,
/// as far as the classification reads them.
#[derive(Clone, Copy, Debug, PartialEq, Eq, Structural)]
pub struct StatusFlags {
    pub index_new: bool,
    pub index_modified: bool,
    pub worktree_new: bool,
    pub worktree_modified: bool,
    pub worktree_deleted: bool,
    pub ignored: bool,
}

/// What a changed path is shown as; the variants are listed by precedence,
/// highest first.
#[derive(Clone, Copy, Debug, PartialEq, Eq, Structural)]
pub enum Category {
    WorktreeModified,
    IndexModified,
    WorktreeNew,
    IndexNew,
    Ignored,
    Unclassified,
}

/// The semantic display style of a changed path's name.
#[derive(Clone, Copy, Debug, PartialEq, Eq, Structural)]
pub enum Style {
    ModifiedPlain,
    ModifiedEmphasized,
    NewPlain,
    NewEmphasized,
    Ignored,
    Default,
}

/// A classified record: its category and the two modifier glyphs shown in
/// front of its name (index column, then worktree column).
#[derive(Clone, Copy, Debug, PartialEq, Eq, Structural)]
pub struct Classification {
    pub category: Category,
    pub index_glyph: char,
    pub worktree_glyph: char,
}

pub open spec fn category_of(f: StatusFlags) -> Category {
    if f.worktree_modified {
        Category::WorktreeModified
    } else if f.index_modified {
        Category::IndexModified
    } else if f.worktree_new {
        Category::WorktreeNew
    } else if f.index_new {
        Category::IndexNew
    } else if f.ignored {
        Category::Ignored
    } else {
        Category::Unclassified
    }
}

pub open spec fn index_glyph_of(f: StatusFlags) -> char {
    if f.index_modified {
        'M'
    } else if f.index_new {
        'N'
    } else {
        '-'
    }
}

pub open spec fn worktree_glyph_of(f: StatusFlags) -> char {
    if f.worktree_modified {
        'M'
    } else if f.worktree_new {
        'N'
    } else if f.worktree_deleted {
        'D'
    } else {
        '-'
    }
}

pub open spec fn classification_of(f: StatusFlags) -> Classification {
    Classification {
        category: category_of(f),
        index_glyph: index_glyph_of(f),
        worktree_glyph: worktree_glyph_of(f),
    }
}

pub open spec fn style_of(c: Category) -> Style {
    match c {
        Category::WorktreeModified => Style::ModifiedPlain,
        Category::IndexModified => Style::ModifiedEmphasized,
        Category::WorktreeNew => Style::NewPlain,
        Category::IndexNew => Style::NewEmphasized,
        Category::Ignored => Style::Ignored,
        Category::Unclassified => Style::Default,
    }
}

impl StatusFlags {
    /// No flag set.
    pub fn none() -> (r: StatusFlags)
        ensures
            !r.index_new && !r.index_modified && !r.worktree_new,
            !r.worktree_modified && !r.worktree_deleted && !r.ignored,
    {
        StatusFlags {
            index_new: false,
            index_modified: false,
            worktree_new: false,
            worktree_modified: false,
            worktree_deleted: false,
            ignored: false,
        }
    }
}

impl Category {
    /// The display style of this category.
    pub fn style(&self) -> (r: Style)
        ensures
            r == style_of(*self),
    {
        match self {
            Category::WorktreeModified => Style::ModifiedPlain,
            Category::IndexModified => Style::ModifiedEmphasized,
            Category::WorktreeNew => Style::NewPlain,
            Category::IndexNew => Style::NewEmphasized,
            Category::Ignored => Style::Ignored,
            Category::Unclassified => Style::Default,
        }
    }
}

/// The category of a flag set: the highest of worktree-modified,
/// index-modified, worktree-new, index-new and ignored that is set.
pub fn category(f: &StatusFlags) -> (r: Category)
    ensures
        r == category_of(*f),
{
    if f.worktree_modified {
        Category::WorktreeModified
    } else if f.index_modified {
        Category::IndexModified
    } else if f.worktree_new {
        Category::WorktreeNew
    } else if f.index_new {
        Category::IndexNew
    } else if f.ignored {
        Category::Ignored
    } else {
        Category::Unclassified
    }
}

/// Classifies a flag set: its category, and the index and worktree glyphs,
/// each derived from its own column's flags alone.
pub fn classify(f: &StatusFlags) -> (r: Classification)
    ensures
        r == classification_of(*f),
{
    let index_glyph = if f.index_modified {
        'M'
    } else if f.index_new {
        'N'
    } else {
        '-'
    };
    let worktree_glyph = if f.worktree_modified {
        'M'
    } else if f.worktree_new {
        'N'
    } else if f.worktree_deleted {
        'D'
    } else {
        '-'
    };
    Classification { category: category(f), index_glyph, worktree_glyph }
}

} // verus!

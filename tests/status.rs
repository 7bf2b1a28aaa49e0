use git_tree::status::{category, classify, Category, Classification, StatusFlags, Style};

fn flags() -> StatusFlags {
    StatusFlags::none()
}

#[test]
fn worktree_modified_alone_is_plain_modified_with_dash_m() {
    let mut f = flags();
    f.worktree_modified = true;
    let c = classify(&f);
    assert_eq!(c.category, Category::WorktreeModified);
    assert_eq!(c.category.style(), Style::ModifiedPlain);
    assert_eq!((c.index_glyph, c.worktree_glyph), ('-', 'M'));
}

#[test]
fn worktree_modified_outranks_index_new_and_glyphs_stay_per_column() {
    let mut f = flags();
    f.worktree_modified = true;
    f.index_new = true;
    let c = classify(&f);
    assert_eq!(c.category, Category::WorktreeModified);
    assert_eq!((c.index_glyph, c.worktree_glyph), ('N', 'M'));
}

#[test]
fn precedence_of_categories() {
    let mut f = flags();
    f.ignored = true;
    assert_eq!(category(&f), Category::Ignored);
    f.index_new = true;
    assert_eq!(category(&f), Category::IndexNew);
    f.worktree_new = true;
    assert_eq!(category(&f), Category::WorktreeNew);
    f.index_modified = true;
    assert_eq!(category(&f), Category::IndexModified);
    f.worktree_modified = true;
    assert_eq!(category(&f), Category::WorktreeModified);
}

#[test]
fn styles_follow_categories() {
    assert_eq!(Category::IndexModified.style(), Style::ModifiedEmphasized);
    assert_eq!(Category::WorktreeNew.style(), Style::NewPlain);
    assert_eq!(Category::IndexNew.style(), Style::NewEmphasized);
    assert_eq!(Category::Ignored.style(), Style::Ignored);
    assert_eq!(Category::Unclassified.style(), Style::Default);
}

#[test]
fn no_flags_is_unclassified_with_dashes() {
    let c = classify(&flags());
    assert_eq!(
        c,
        Classification { category: Category::Unclassified, index_glyph: '-', worktree_glyph: '-' }
    );
}

#[test]
fn worktree_deletion_shows_d() {
    let mut f = flags();
    f.worktree_deleted = true;
    f.index_modified = true;
    let c = classify(&f);
    assert_eq!(c.category, Category::IndexModified);
    assert_eq!((c.index_glyph, c.worktree_glyph), ('M', 'D'));
}

#[test]
fn index_new_alone() {
    let mut f = flags();
    f.index_new = true;
    let c = classify(&f);
    assert_eq!(c.category, Category::IndexNew);
    assert_eq!((c.index_glyph, c.worktree_glyph), ('N', '-'));
}

//! One source file: its text, its syntax tree and the tags gathered in it.
use vstd::prelude::*;
use vstd::utf8::{decode_utf8, encode_utf8, valid_utf8, decode_utf8_encode_utf8};
use tree_sitter::{Parser, Tree};
use crate::edit::{describes, get_tree_sitter_edit, splice, Edit, InputEdit, Range};
use crate::pattern::{replace_pattern, replaced};
use crate::syntax::{
    edit_tree, leads_to, parse, post_order, root_has_error, same_shape, tree_edited,
    tree_has_error, tree_nodes, tree_text, SyntaxNode,
};
use crate::rule_store::{global_bindings, RuleStore};
use crate::tag::TagMap;
use crate::text::{covers_text, string_from_utf8, text_in, text_of};
use crate::utilities::{eq_without_whitespace, without_whitespace};

verus! {
/// Why work on a source file was given up.
#[derive(Clone, Copy, Debug, PartialEq, Eq, Structural)]
pub enum UnitError {
    /// A range does not lie within the text, or ends before it starts.
    OutOfBounds,
    /// The bytes left after a replacement are not UTF-8 text.
    NotText,
    /// The parser handed back no tree.
    ParserFailed,
    /// The text holds a syntax error that no recovery removed.
    SyntaxError,
}

/// What is to become of a file on disk.
#[derive(Debug)]
pub enum FileAction {
    /// Remove the file at the path.
    Delete(String),
    /// Write to the file at the path, the first string, the second one.
    Write(String, String),
}

/// Two commas with nothing but white space between them.
pub const CONSECUTIVE_COMMAS: &'static str = ",\\s*\\n*,";

/// An opening square bracket with a comma right behind it.
pub const BRACKET_COMMA: &'static str = "\\[\\s*\\n*,";

/// The tree is accepted as syntactically valid: its root reports no error,
/// so that no node of the tree is or holds one.
pub open spec fn accepted(tree: Tree) -> bool {
    !tree_has_error(tree)
}

/// `node` is an extra node whose stretch of `code` reads as a lone comma.
pub open spec fn is_stray_comma(code: Seq<u8>, node: SyntaxNode) -> bool {
    &&& node.is_extra
    &&& covers_text(code, node.range)
    &&& without_whitespace(text_in(code, node.range)) == without_whitespace(","@)
}

/// `code` without the stretch of `node`.
pub open spec fn without_node(code: Seq<u8>, node: SyntaxNode) -> Seq<u8> {
    splice(code, node.range.start_byte as int, node.range.end_byte as int, Seq::empty())
}

/// Deleting the stretch of `node` from `code` was of no use: what is left
/// is no text, or a tree of it reports an error.
pub open spec fn deleted_in_vain(code: Seq<u8>, node: SyntaxNode) -> bool {
    valid_utf8(without_node(code, node)) ==> exists|tree: Tree|
        #[trigger] tree_text(tree) == without_node(code, node) && tree_has_error(tree)
}

/// Each of the first `n` nodes of `tree` that is an extra node and reads as
/// a lone comma was deleted from `code` in vain.
pub open spec fn commas_tried(tree: Tree, code: Seq<u8>, n: int) -> bool {
    forall|k: int|
        0 <= k < n && k < tree_nodes(tree).len() && is_stray_comma(
            code,
            #[trigger] tree_nodes(tree)[k],
        ) ==> deleted_in_vain(code, tree_nodes(tree)[k])
}

/// `after` is `before` without the stretch of one extra node of `tree` that
/// reads as a lone comma: of the first such node, in the order in which a
/// node follows its children, that was not deleted in vain.
pub open spec fn comma_node_removed(tree: Tree, before: Seq<u8>, after: Seq<u8>) -> bool {
    exists|i: int|
        0 <= i < tree_nodes(tree).len() && is_stray_comma(before, #[trigger] tree_nodes(tree)[i])
            && after == without_node(before, tree_nodes(tree)[i]) && commas_tried(tree, before, i)
}

/// What recovery makes of a text and its tree. A tree whose root reports no
/// error stays, with its text. Else, on success, the root of the new tree
/// reports no error, and the text is the old one without the stretch of the
/// first extra node that reads as a lone comma and whose deletion clears
/// the error, or, where every such node was deleted in vain, the old one
/// after both textual comma fixes. A syntax error is what is left where the
/// tree of the text after both fixes still reports an error. Where the
/// parser fails, tree and text stay.
pub open spec fn mended(
    tree: Tree,
    text: Seq<char>,
    after_tree: Tree,
    after_text: Seq<char>,
    r: Result<(), UnitError>,
) -> bool {
    if !tree_has_error(tree) {
        r is Ok && after_tree == tree && after_text == text
    } else {
        match r {
            Ok(()) => !tree_has_error(after_tree) && (comma_node_removed(
                tree,
                encode_utf8(text),
                encode_utf8(after_text),
            ) || (after_text == comma_fixes(text) && commas_tried(
                tree,
                encode_utf8(text),
                tree_nodes(tree).len() as int,
            ))),
            Err(e) => (e == UnitError::ParserFailed && after_tree == tree && after_text == text)
                || (e == UnitError::SyntaxError && after_text == comma_fixes(text)
                && tree_has_error(after_tree) && commas_tried(
                tree,
                encode_utf8(text),
                tree_nodes(tree).len() as int,
            )),
        }
    }
}

/// What came of an edit, seen as what came of the work on the unit.
pub open spec fn outcome_of(r: Result<InputEdit, UnitError>) -> Result<(), UnitError> {
    match r {
        Ok(_) => Ok(()),
        Err(e) => Err(e),
    }
}

/// `text` after both textual comma fixes: doubled commas made one, and a
/// comma right behind an opening square bracket dropped.
pub open spec fn comma_fixes(text: Seq<char>) -> Seq<char> {
    replaced(BRACKET_COMMA@, replaced(CONSECUTIVE_COMMAS@, text, ","@), "["@)
}

/// `after` is `before` with one stretch deleted that reads as a lone comma.
pub open spec fn lone_comma_removed(before: Seq<u8>, after: Seq<u8>) -> bool {
    exists|range: Range|
        covers_text(before, range) && without_whitespace(#[trigger] text_in(before, range))
            == without_whitespace(","@) && after == splice(
            before,
            range.start_byte as int,
            range.end_byte as int,
            Seq::empty(),
        )
}

/// What recovery may make of a text: nothing, the text without one lone
/// comma, or the text after both textual comma fixes.
pub open spec fn recovers(before: Seq<char>, after: Seq<char>) -> bool {
    ||| after == before
    ||| lone_comma_removed(encode_utf8(before), encode_utf8(after))
    ||| after == comma_fixes(before)
}

/// A source file with its syntax tree and the tags accumulated in it.
pub struct SourceCodeUnit {
    ast: Tree,
    code: String,
    read: String,
    substitutions: TagMap,
    path: String,
}

impl Clone for SourceCodeUnit {
    fn clone(&self) -> (copy: Self)
        ensures
            copy.text() == self.text(),
            copy.first_text() == self.first_text(),
            copy.tags() == self.tags(),
            copy.location() == self.location(),
            self.wf() ==> copy.wf(),
            same_shape(tree_nodes(copy.tree()), tree_nodes(self.tree())),
    {
        SourceCodeUnit {
            ast: self.ast.clone(),
            code: self.code.clone(),
            read: self.read.clone(),
            substitutions: self.substitutions.clone(),
            path: self.path.clone(),
        }
    }
}

impl SourceCodeUnit {
    /// The syntax tree.
    pub closed spec fn tree(&self) -> Tree {
        self.ast
    }

    /// The text of the file.
    pub closed spec fn text(&self) -> Seq<char> {
        self.code@
    }

    /// The text of the file as it was read.
    pub closed spec fn first_text(&self) -> Seq<char> {
        self.read@
    }

    /// The text of the file as bytes.
    pub open spec fn bytes(&self) -> Seq<u8> {
        encode_utf8(self.text())
    }

    /// The tags accumulated so far.
    pub closed spec fn tags(&self) -> Map<Seq<char>, Seq<char>> {
        self.substitutions@
    }

    /// Where the file lies.
    pub closed spec fn location(&self) -> Seq<char> {
        self.path@
    }

    /// The tree is the parser's result over exactly the text.
    pub open spec fn wf(&self) -> bool {
        tree_text(self.tree()) == self.bytes()
    }

    /// Parses `code` and starts with the given tags.
    pub fn new(parser: &mut Parser, code: String, substitutions: &TagMap, path: &str) -> (r:
        Result<Self, UnitError>)
        ensures
            match r {
                Ok(unit) => unit.wf() && unit.text() == code@ && unit.first_text() == code@
                    && unit.tags() == substitutions@ && unit.location() == path@,
                Err(e) => e == UnitError::ParserFailed,
            },
    {
        match parse(parser, code.as_str().as_bytes(), None) {
            Some(ast) => Ok(
                SourceCodeUnit {
                    ast,
                    read: code.clone(),
                    code,
                    substitutions: substitutions.clone(),
                    path: path.to_owned(),
                },
            ),
            None => Err(UnitError::ParserFailed),
        }
    }

    /// What is read of the root of the tree.
    pub fn root_node(&self) -> (r: Option<SyntaxNode>)
        ensures
            r == (if tree_nodes(self.tree()).len() > 0 {
                Some(tree_nodes(self.tree()).last())
            } else {
                None
            }),
    {
        let nodes = post_order(&self.ast);
        if nodes.len() > 0 {
            Some(nodes[nodes.len() - 1])
        } else {
            None
        }
    }

    /// What is to be done with the file on disk: it is written, or removed
    /// where no text is left.
    pub fn persist(&self) -> (action: FileAction)
        ensures
            match action {
                FileAction::Delete(path) => self.text().len() == 0 && path@ == self.location(),
                FileAction::Write(path, contents) => self.text().len() > 0 && path@
                    == self.location() && contents@ == self.text(),
            },
    {
        if self.code.as_str().is_empty() {
            FileAction::Delete(self.path.clone())
        } else {
            FileAction::Write(self.path.clone(), self.code.clone())
        }
    }

    /// Whether the text is no longer the text that was read.
    pub fn is_modified(&self) -> (b: bool)
        ensures
            b == (self.text() != self.first_text()),
    {
        self.code != self.read
    }

    /// The text of the file.
    pub fn code(&self) -> (code: String)
        ensures
            code@ == self.text(),
    {
        self.code.clone()
    }

    /// Where the file lies.
    pub fn path(&self) -> (path: &String)
        ensures
            path@ == self.location(),
    {
        &self.path
    }

    /// The syntax tree.
    pub(crate) fn ast(&self) -> (tree: &Tree)
        ensures
            *tree == self.tree(),
    {
        &self.ast
    }

    /// The text of the file, borrowed.
    pub(crate) fn source(&self) -> (code: &str)
        ensures
            code@ == self.text(),
    {
        self.code.as_str()
    }

    /// The tags accumulated so far.
    pub fn substitutions(&self) -> (tags: &TagMap)
        ensures
            tags@ == self.tags(),
    {
        &self.substitutions
    }

    /// The text and the tree that the replacement of `range` by `replacement`
    /// leads to, with the summary of the change. The unit stays as it is.
    fn edited(&self, range: &Range, replacement: &str, parser: &mut Parser) -> (r: Result<
        (Tree, String, InputEdit),
        UnitError,
    >)
        requires
            self.wf(),
        ensures
            match r {
                Ok((tree, code, edit)) => {
                    &&& range.within(self.bytes().len() as int)
                    &&& encode_utf8(code@) == self.spliced(*range, replacement@)
                    &&& tree_text(tree) == encode_utf8(code@)
                    &&& describes(edit, self.bytes(), *range, encode_utf8(replacement@))
                },
                Err(e) => {
                    &&& e == UnitError::OutOfBounds <==> !range.within(self.bytes().len() as int)
                    &&& e == UnitError::NotText <==> range.within(self.bytes().len() as int)
                        && !valid_utf8(self.spliced(*range, replacement@))
                    &&& e != UnitError::SyntaxError
                },
            },
    {
        let code_bytes = self.code.as_str().as_bytes();
        if range.start_byte > range.end_byte || range.end_byte > code_bytes.len() {
            return Err(UnitError::OutOfBounds);
        }
        let (new_bytes, ts_edit) = get_tree_sitter_edit(code_bytes, range, replacement.as_bytes());
        let ghost target = new_bytes@;
        let new_code = match string_from_utf8(new_bytes) {
            Some(s) => s,
            None => {
                return Err(UnitError::NotText);
            },
        };
        proof {
            decode_utf8_encode_utf8(target);
        }
        let mut old_tree = self.ast.clone();
        edit_tree(&mut old_tree, &ts_edit);
        proof {
            let text = self.bytes();
            assert(tree_edited(old_tree) == Some((text, ts_edit)));
            assert(range.within(text.len() as int));
            assert(describes(ts_edit, text, *range, encode_utf8(replacement@)));
            assert(encode_utf8(new_code@) == splice(
                text,
                range.start_byte as int,
                range.end_byte as int,
                encode_utf8(replacement@),
            ));
            assert(leads_to(text, ts_edit, encode_utf8(new_code@)));
        }
        match parse(parser, new_code.as_str().as_bytes(), Some(&old_tree)) {
            Some(tree) => Ok((tree, new_code, ts_edit)),
            None => Err(UnitError::ParserFailed),
        }
    }

    /// Whether the bytes that `range` covers read as a lone comma.
    fn reads_as_comma(&self, range: &Range) -> (b: bool)
        ensures
            b == (covers_text(self.bytes(), *range) && without_whitespace(
                text_in(self.bytes(), *range),
            ) == without_whitespace(","@)),
    {
        match text_of(self.code.as_str().as_bytes(), range) {
            Some(text) => eq_without_whitespace(text.as_str(), ","),
            None => false,
        }
    }

    /// Takes `tree` and `code`, the tree of a text and that text, in place
    /// of its own where the root of `tree` reports no error, and says
    /// whether it did.
    pub fn adopt_if_valid(&mut self, tree: Tree, code: String) -> (taken: bool)
        ensures
            taken == accepted(tree),
            taken ==> final(self).tree() == tree && final(self).text() == code@,
            !taken ==> *final(self) == *old(self),
            final(self).tags() == old(self).tags(),
            final(self).location() == old(self).location(),
            final(self).first_text() == old(self).first_text(),
            old(self).wf() && tree_text(tree) == encode_utf8(code@) ==> final(self).wf(),
    {
        if root_has_error(&tree) {
            return false;
        }
        self.ast = tree;
        self.code = code;
        true
    }

    /// Replaces the whole text and parses it afresh.
    pub fn _apply_edit_replace_file_contents(
        &mut self,
        replacement_content: &str,
        parser: &mut Parser,
    ) -> (r: Result<(), UnitError>)
        ensures
            final(self).tags() == old(self).tags(),
            final(self).location() == old(self).location(),
            final(self).first_text() == old(self).first_text(),
            match r {
                Ok(()) => final(self).wf() && final(self).text() == replacement_content@,
                Err(e) => e == UnitError::ParserFailed && *final(self) == *old(self),
            },
    {
        match parse(parser, replacement_content.as_bytes(), None) {
            Some(tree) => {
                self.ast = tree;
                self.code = replacement_content.to_owned();
                Ok(())
            },
            None => Err(UnitError::ParserFailed),
        }
    }

    /// Recovers from the syntax errors that a rewrite may leave behind, such
    /// as a comma that lost its neighbour. First each extra node that reads
    /// as a lone comma is deleted in turn, until the tree is free of errors;
    /// then doubled commas and a comma behind an opening square bracket are
    /// fixed in the text. A tree whose root still reports an error is refused.
    pub fn remove_additional_comma_from_sequence_list(&mut self, parser: &mut Parser) -> (r:
        Result<(), UnitError>)
        requires
            old(self).wf(),
        ensures
            final(self).wf(),
            final(self).tags() == old(self).tags(),
            final(self).location() == old(self).location(),
            final(self).first_text() == old(self).first_text(),
            recovers(old(self).text(), final(self).text()),
            !tree_has_error(old(self).tree()) ==> r is Ok && *final(self) == *old(self),
            r == Err::<(), UnitError>(UnitError::ParserFailed) ==> *final(self) == *old(self),
            mended(old(self).tree(), old(self).text(), final(self).tree(), final(self).text(), r),
    {
        if !root_has_error(&self.ast) {
            return Ok(());
        }
        let nodes = post_order(&self.ast);
        let mut i: usize = 0;
        while i < nodes.len()
            invariant
                i <= nodes@.len(),
                nodes@ == tree_nodes(old(self).tree()),
                *self == *old(self),
                self.wf(),
                tree_has_error(old(self).tree()),
                commas_tried(old(self).tree(), old(self).bytes(), i as int),
            decreases nodes.len() - i,
        {
            let node = nodes[i];
            proof {
                reveal_strlit("");
                assert(encode_utf8(""@) =~= Seq::<u8>::empty());
                assert(nodes@[i as int] == node);
            }
            if node.is_extra && self.reads_as_comma(&node.range) {
                match self.edited(&node.range, "", parser) {
                    Ok((tree, code, _)) => {
                        let ghost attempt = tree;
                        if self.adopt_if_valid(tree, code) {
                            assert(is_stray_comma(
                                old(self).bytes(),
                                tree_nodes(old(self).tree())[i as int],
                            ));
                            assert(comma_node_removed(
                                old(self).tree(),
                                old(self).bytes(),
                                self.bytes(),
                            ));
                            return Ok(());
                        }
                        assert(tree_text(attempt) == without_node(self.bytes(), node));
                        assert(deleted_in_vain(self.bytes(), node));
                    },
                    Err(UnitError::ParserFailed) => {
                        return Err(UnitError::ParserFailed);
                    },
                    Err(_) => {
                        assert(deleted_in_vain(self.bytes(), node));
                    },
                }
            }
            i += 1;
        }
        let fixed = replace_pattern(CONSECUTIVE_COMMAS, self.code.as_str(), ",");
        let updated = replace_pattern(BRACKET_COMMA, fixed.as_str(), "[");
        if self.code != updated {
            match self._apply_edit_replace_file_contents(updated.as_str(), parser) {
                Ok(()) => {},
                Err(e) => {
                    return Err(e);
                },
            }
        }
        if root_has_error(&self.ast) {
            return Err(UnitError::SyntaxError);
        }
        Ok(())
    }

    /// Replaces the bytes that `range` covers by `replacement` and parses
    /// the text again, from the tree at hand. With `handle_error`, recovery
    /// follows.
    pub fn _apply_edit(
        &mut self,
        range: &Range,
        replacement: &str,
        parser: &mut Parser,
        handle_error: bool,
    ) -> (r: Result<InputEdit, UnitError>)
        requires
            old(self).wf(),
        ensures
            final(self).wf(),
            final(self).tags() == old(self).tags(),
            final(self).location() == old(self).location(),
            final(self).first_text() == old(self).first_text(),
            match r {
                Ok(edit) => {
                    &&& range.within(old(self).bytes().len() as int)
                    &&& valid_utf8(old(self).spliced(*range, replacement@))
                    &&& describes(edit, old(self).bytes(), *range, encode_utf8(replacement@))
                    &&& !handle_error ==> final(self).bytes() == old(self).spliced(
                        *range,
                        replacement@,
                    )
                    &&& handle_error ==> accepted(final(self).tree()) && recovers(
                        decode_utf8(old(self).spliced(*range, replacement@)),
                        final(self).text(),
                    )
                },
                Err(e) => {
                    &&& e == UnitError::OutOfBounds <==> !range.within(
                        old(self).bytes().len() as int,
                    )
                    &&& e == UnitError::NotText <==> range.within(old(self).bytes().len() as int)
                        && !valid_utf8(old(self).spliced(*range, replacement@))
                    &&& e == UnitError::OutOfBounds || e == UnitError::NotText ==> *final(self)
                        == *old(self)
                    &&& e == UnitError::SyntaxError ==> handle_error && !accepted(
                        final(self).tree(),
                    ) && recovers(
                        decode_utf8(old(self).spliced(*range, replacement@)),
                        final(self).text(),
                    )
                    &&& e == UnitError::ParserFailed ==> *final(self) == *old(self)
                        || final(self).bytes() == old(self).spliced(*range, replacement@)
                },
            },
            handle_error && (r is Ok || r == Err::<InputEdit, UnitError>(UnitError::SyntaxError))
                ==> old(self).settled(*range, replacement@, *final(self), outcome_of(r)),
    {
        let (tree, code, ts_edit) = match self.edited(range, replacement, parser) {
            Ok(done) => done,
            Err(e) => {
                return Err(e);
            },
        };
        proof {
            vstd::utf8::encode_utf8_valid_utf8(code@);
            vstd::utf8::encode_utf8_decode_utf8(code@);
        }
        self.ast = tree;
        self.code = code;
        let ghost mid = self.ast;
        if handle_error {
            match self.remove_additional_comma_from_sequence_list(parser) {
                Ok(()) => {},
                Err(e) => {
                    assert(e == UnitError::SyntaxError ==> mended(
                        mid,
                        decode_utf8(old(self).spliced(*range, replacement@)),
                        self.tree(),
                        self.text(),
                        Err(e),
                    ));
                    return Err(e);
                },
            }
            assert(mended(
                mid,
                decode_utf8(old(self).spliced(*range, replacement@)),
                self.tree(),
                self.text(),
                Ok(()),
            ));
        }
        Ok(ts_edit)
    }

    /// Carries out `edit`, with recovery.
    pub fn apply_edit(&mut self, edit: &Edit, parser: &mut Parser) -> (r: Result<
        InputEdit,
        UnitError,
    >)
        requires
            old(self).wf(),
        ensures
            final(self).wf(),
            final(self).tags() == old(self).tags(),
            final(self).location() == old(self).location(),
            final(self).first_text() == old(self).first_text(),
            match r {
                Ok(done) => {
                    &&& edit.replacement_range.within(old(self).bytes().len() as int)
                    &&& valid_utf8(
                        old(self).spliced(edit.replacement_range, edit.replacement_string@),
                    )
                    &&& describes(
                        done,
                        old(self).bytes(),
                        edit.replacement_range,
                        encode_utf8(edit.replacement_string@),
                    )
                    &&& accepted(final(self).tree())
                    &&& recovers(
                        decode_utf8(
                            old(self).spliced(edit.replacement_range, edit.replacement_string@),
                        ),
                        final(self).text(),
                    )
                },
                Err(e) => {
                    &&& e == UnitError::OutOfBounds <==> !edit.replacement_range.within(
                        old(self).bytes().len() as int,
                    )
                    &&& e == UnitError::NotText <==> edit.replacement_range.within(
                        old(self).bytes().len() as int,
                    ) && !valid_utf8(
                        old(self).spliced(edit.replacement_range, edit.replacement_string@),
                    )
                    &&& e == UnitError::OutOfBounds || e == UnitError::NotText ==> *final(self)
                        == *old(self)
                    &&& e == UnitError::SyntaxError ==> !accepted(final(self).tree()) && recovers(
                        decode_utf8(
                            old(self).spliced(edit.replacement_range, edit.replacement_string@),
                        ),
                        final(self).text(),
                    )
                    &&& e == UnitError::ParserFailed ==> *final(self) == *old(self)
                        || final(self).bytes() == old(self).spliced(
                        edit.replacement_range,
                        edit.replacement_string@,
                    )
                },
            },
            r is Ok || r == Err::<InputEdit, UnitError>(UnitError::SyntaxError) ==> old(self).settled(
                edit.replacement_range,
                edit.replacement_string@,
                *final(self),
                outcome_of(r),
            ),
    {
        self._apply_edit(&edit.replacement_range, edit.replacement_string.as_str(), parser, true)
    }

    /// The summary of what `edit` would change, with nothing changed.
    pub fn apply_edit_dry(&self, edit: &Edit) -> (r: Result<InputEdit, UnitError>)
        ensures
            match r {
                Ok(done) => edit.replacement_range.within(self.bytes().len() as int)
                    && describes(
                    done,
                    self.bytes(),
                    edit.replacement_range,
                    encode_utf8(edit.replacement_string@),
                ),
                Err(e) => e == UnitError::OutOfBounds && !edit.replacement_range.within(
                    self.bytes().len() as int,
                ),
            },
    {
        let code_bytes = self.code.as_str().as_bytes();
        let range = &edit.replacement_range;
        if range.start_byte > range.end_byte || range.end_byte > code_bytes.len() {
            return Err(UnitError::OutOfBounds);
        }
        let (_, done) = get_tree_sitter_edit(
            code_bytes,
            range,
            edit.replacement_string.as_str().as_bytes(),
        );
        Ok(done)
    }

    /// Extends the tags of the file by `new_entries`. Those whose names
    /// begin with the global prefix are published to the seed tags of the
    /// store as well.
    pub fn add_to_substitutions(&mut self, new_entries: &TagMap, rule_store: &mut RuleStore)
        ensures
            final(self).tags() == old(self).tags().union_prefer_right(new_entries@),
            final(self).tree() == old(self).tree(),
            final(self).text() == old(self).text(),
            final(self).location() == old(self).location(),
            final(self).first_text() == old(self).first_text(),
            final(rule_store).seed_tags() == old(rule_store).seed_tags().union_prefer_right(
                global_bindings(new_entries@),
            ),
            final(rule_store).active() == old(rule_store).active(),
            final(rule_store).same_config(old(rule_store)),
    {
        self.substitutions.extend(new_entries);
        rule_store.add_to_input_substitutions(new_entries);
    }

    /// What an edit with recovery makes of the unit: the text with `range`
    /// replaced by `replacement` was parsed, and recovery has made `after`
    /// of that text and its tree. So the text is the spliced one unless the
    /// tree parsed from it reported an error.
    pub open spec fn settled(
        &self,
        range: Range,
        replacement: Seq<char>,
        after: SourceCodeUnit,
        r: Result<(), UnitError>,
    ) -> bool {
        exists|mid: Tree|
            tree_text(mid) == self.spliced(range, replacement) && #[trigger] mended(
                mid,
                decode_utf8(self.spliced(range, replacement)),
                after.tree(),
                after.text(),
                r,
            )
    }

    /// The bytes of the file with those that `range` covers replaced by the
    /// bytes of `replacement`.
    pub open spec fn spliced(&self, range: Range, replacement: Seq<char>) -> Seq<u8> {
        splice(
            self.bytes(),
            range.start_byte as int,
            range.end_byte as int,
            encode_utf8(replacement),
        )
    }
}
} // verus!

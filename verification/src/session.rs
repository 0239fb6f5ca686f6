use vstd::prelude::*;

use crate::adjust_index::{cycled, step_index, stepped, AdjustDirection};
use crate::btree::edit::sibling_path;
use crate::btree::laws::{
    lemma_node_at_push, lemma_node_at_replaced, lemma_prefix_leads_somewhere,
    lemma_shape_decides_position,
};
use crate::btree::{BTreeNode, PathError};
use crate::panes::{
    leaf_showing, lemma_resized_same_shape, navigated, resized, split_showing, Pane,
    SplitDirection,
};
use crate::parse_csv::CsvData;
use crate::tab::Tab;

verus! {

/// The key of a key press, as far as the program tells keys apart.
#[derive(Debug, Clone, Copy, PartialEq, Eq, Structural)]
pub enum KeyCode {
    Char(char),
    Tab,
    Up,
    Down,
    Other,
}

/// A key press: the key, and whether it came without any modifier key.
#[derive(Debug, Clone, Copy, PartialEq, Eq, Structural)]
pub struct KeyPress {
    pub code: KeyCode,
    pub plain: bool,
}

/// What a key press asks for.
#[derive(Debug, Clone, Copy, PartialEq, Eq, Structural)]
pub enum Command {
    Quit,
    NextTab,
    RowUp,
    RowDown,
    Navigate(SplitDirection, AdjustDirection),
    Split(SplitDirection),
    Remove,
    Resize(SplitDirection, i8),
    CycleImage(AdjustDirection),
    Nothing,
}

/// By how many percent one key press moves a divider.
pub const RESIZE_STEP: i8 = 5;

/// What a key press asks for while `tab` is shown. `q` quits whatever the
/// modifiers, and the two keys that change the image count with any
/// modifiers too; every other key counts only without modifiers. The keys
/// that work on panes count only while the images are shown.
pub open spec fn command_of(key: KeyPress, tab: Tab) -> Command {
    match key.code {
        KeyCode::Char(c) => if c == 'q' {
            Command::Quit
        } else if tab != Tab::Image {
            Command::Nothing
        } else if c == 'ä' {
            Command::CycleImage(AdjustDirection::Next)
        } else if c == 'ö' {
            Command::CycleImage(AdjustDirection::Previous)
        } else if !key.plain {
            Command::Nothing
        } else if c == 'h' {
            Command::Navigate(SplitDirection::Horizontal, AdjustDirection::Previous)
        } else if c == 'j' {
            Command::Navigate(SplitDirection::Vertical, AdjustDirection::Next)
        } else if c == 'k' {
            Command::Navigate(SplitDirection::Vertical, AdjustDirection::Previous)
        } else if c == 'l' {
            Command::Navigate(SplitDirection::Horizontal, AdjustDirection::Next)
        } else if c == 'r' {
            Command::Split(SplitDirection::Horizontal)
        } else if c == 'b' {
            Command::Split(SplitDirection::Vertical)
        } else if c == 'x' {
            Command::Remove
        } else if c == 'a' {
            Command::Resize(SplitDirection::Horizontal, (-5i8))
        } else if c == 's' {
            Command::Resize(SplitDirection::Vertical, 5i8)
        } else if c == 'w' {
            Command::Resize(SplitDirection::Vertical, (-5i8))
        } else if c == 'd' {
            Command::Resize(SplitDirection::Horizontal, 5i8)
        } else {
            Command::Nothing
        },
        KeyCode::Tab => if key.plain {
            Command::NextTab
        } else {
            Command::Nothing
        },
        KeyCode::Up => if key.plain {
            Command::RowUp
        } else {
            Command::Nothing
        },
        KeyCode::Down => if key.plain {
            Command::RowDown
        } else {
            Command::Nothing
        },
        KeyCode::Other => Command::Nothing,
    }
}

/// What a key press asks for while `tab` is shown.
pub fn command_for(key: KeyPress, tab: Tab) -> (command: Command)
    ensures
        command == command_of(key, tab),
{
    match key.code {
        KeyCode::Char(c) => {
            if c == 'q' {
                return Command::Quit;
            }
            if tab != Tab::Image {
                return Command::Nothing;
            }
            if c == 'ä' {
                return Command::CycleImage(AdjustDirection::Next);
            }
            if c == 'ö' {
                return Command::CycleImage(AdjustDirection::Previous);
            }
            if !key.plain {
                return Command::Nothing;
            }
            match c {
                'h' => Command::Navigate(SplitDirection::Horizontal, AdjustDirection::Previous),
                'j' => Command::Navigate(SplitDirection::Vertical, AdjustDirection::Next),
                'k' => Command::Navigate(SplitDirection::Vertical, AdjustDirection::Previous),
                'l' => Command::Navigate(SplitDirection::Horizontal, AdjustDirection::Next),
                'r' => Command::Split(SplitDirection::Horizontal),
                'b' => Command::Split(SplitDirection::Vertical),
                'x' => Command::Remove,
                'a' => Command::Resize(SplitDirection::Horizontal, -RESIZE_STEP),
                's' => Command::Resize(SplitDirection::Vertical, RESIZE_STEP),
                'w' => Command::Resize(SplitDirection::Vertical, -RESIZE_STEP),
                'd' => Command::Resize(SplitDirection::Horizontal, RESIZE_STEP),
                _ => Command::Nothing,
            }
        },
        KeyCode::Tab => if key.plain {
            Command::NextTab
        } else {
            Command::Nothing
        },
        KeyCode::Up => if key.plain {
            Command::RowUp
        } else {
            Command::Nothing
        },
        KeyCode::Down => if key.plain {
            Command::RowDown
        } else {
            Command::Nothing
        },
        KeyCode::Other => Command::Nothing,
    }
}

/// The state of the program between two key presses: the table and the
/// directory of each of its rows, the names of the images, which tab is
/// shown, which row is selected, the layout of the panes, and the path of
/// the pane that has the focus.
#[derive(Debug)]
pub struct App {
    pub running: bool,
    pub col_headers: Vec<String>,
    pub table_rows: Vec<Vec<String>>,
    pub imagedir_paths: Vec<String>,
    pub imagefile_basenames: Vec<String>,
    pub current_tab: Tab,
    pub current_datarow_index: usize,
    pub pane_tree: Pane,
    pub current_pane_path: Vec<bool>,
}

impl Default for App {
    /// The state before anything is loaded: no table, no images, one pane.
    fn default() -> (app: Self)
        ensures
            !app.running,
            app.current_tab == Tab::Data,
            app.row_count() == 0,
            app.image_count() == 0,
            app.col_headers@.len() == 0,
            app.imagedir_paths@.len() == 0,
            app.current_datarow_index == 0,
            app.pane_tree.0 == leaf_showing(0),
            app.current_pane_path@ == Seq::<bool>::empty(),
    {
        App {
            running: false,
            col_headers: Vec::new(),
            table_rows: Vec::new(),
            imagedir_paths: Vec::new(),
            imagefile_basenames: Vec::new(),
            current_tab: Tab::Data,
            current_datarow_index: 0,
            pane_tree: Pane::new_leaf(),
            current_pane_path: Vec::new(),
        }
    }
}

impl App {
    /// The pane that has the focus is a pane of the layout.
    pub open spec fn focused(self) -> bool {
        self.pane_tree.0.leaf_position(self.current_pane_path@) is Some
    }

    /// The number of rows of the table.
    pub open spec fn row_count(self) -> nat {
        self.table_rows@.len()
    }

    /// The number of images that a pane can show.
    pub open spec fn image_count(self) -> nat {
        self.imagefile_basenames@.len()
    }

    /// `other` has the table and the images of this state.
    pub open spec fn same_data(self, other: App) -> bool {
        &&& other.col_headers == self.col_headers
        &&& other.table_rows == self.table_rows
        &&& other.imagedir_paths == self.imagedir_paths
        &&& other.imagefile_basenames == self.imagefile_basenames
    }

    /// `other` differs from this state at most in the layout and the focus.
    pub open spec fn same_but_panes(self, other: App) -> bool {
        &&& self.same_data(other)
        &&& other.running == self.running
        &&& other.current_tab == self.current_tab
        &&& other.current_datarow_index == self.current_datarow_index
    }

    /// `other` differs from this state at most in the tab, the row and
    /// whether the program goes on.
    pub open spec fn same_panes(self, other: App) -> bool {
        &&& self.same_data(other)
        &&& other.pane_tree.0 == self.pane_tree.0
        &&& other.current_pane_path@ == self.current_pane_path@
    }

    /// The state can carry out `command`: moving down wants a row, and
    /// changing the image wants an image.
    pub open spec fn accepts(self, command: Command) -> bool {
        match command {
            Command::RowDown => self.row_count() > 0,
            Command::CycleImage(_) => self.image_count() > 0,
            _ => true,
        }
    }

    /// `next` is the state after `command` has been carried out.
    pub open spec fn leads_to(self, command: Command, next: App) -> bool {
        let tree = self.pane_tree.0;
        let path = self.current_pane_path@;
        match command {
            Command::Quit => self.same_panes(next) && !next.running && next.current_tab
                == self.current_tab && next.current_datarow_index == self.current_datarow_index,
            Command::NextTab => self.same_panes(next) && next.running == self.running
                && next.current_tab == self.current_tab.other() && next.current_datarow_index
                == self.current_datarow_index,
            Command::RowUp => self.same_panes(next) && next.running == self.running
                && next.current_tab == self.current_tab && next.current_datarow_index == stepped(
                self.current_datarow_index as int,
                self.row_count() as int,
                AdjustDirection::Previous,
            ),
            Command::RowDown => self.same_panes(next) && next.running == self.running
                && next.current_tab == self.current_tab && next.current_datarow_index == stepped(
                self.current_datarow_index as int,
                self.row_count() as int,
                AdjustDirection::Next,
            ),
            Command::Navigate(axis, direction) => {
                &&& self.same_but_panes(next)
                &&& next.pane_tree.0 == tree
                &&& tree.leaf_position(path) matches Some(from)
                &&& tree.leaf_position(next.current_pane_path@) matches Some(to)
                &&& navigated(tree, from, to, axis, direction)
            },
            Command::Split(direction) => {
                &&& self.same_but_panes(next)
                &&& tree.node_at(path) matches Some(BTreeNode::Leaf(shown))
                &&& next.pane_tree.0 == tree.replaced_at(path, split_showing(shown, direction))
                &&& next.current_pane_path@ == path.push(false)
            },
            Command::Remove => {
                &&& self.same_but_panes(next)
                &&& tree.node_at(path) matches Some(BTreeNode::Leaf(_))
                &&& if path.len() == 0 {
                    next.pane_tree.0 == leaf_showing(0) && next.current_pane_path@ == path
                } else {
                    &&& tree.node_at(sibling_path(path)) matches Some(sibling)
                    &&& next.pane_tree.0 == tree.replaced_at(path.drop_last(), sibling)
                    &&& next.current_pane_path@ == path.drop_last()
                }
            },
            Command::Resize(axis, delta) => {
                &&& self.same_but_panes(next)
                &&& next.pane_tree.0 == resized(tree, path, axis, delta)
                &&& next.current_pane_path@ == path
            },
            Command::CycleImage(direction) => {
                &&& self.same_but_panes(next)
                &&& tree.node_at(path) matches Some(BTreeNode::Leaf(shown))
                &&& next.pane_tree.0 == tree.replaced_at(
                    path,
                    leaf_showing(
                        cycled(shown.image_id as int, self.image_count() as int, direction) as usize,
                    ),
                )
                &&& next.current_pane_path@ == path
            },
            Command::Nothing => self.same_panes(next) && self.same_but_panes(next),
        }
    }

    /// The error with which `command` is refused; `None` where it is carried
    /// out.
    pub open spec fn refusal(self, command: Command) -> Option<PathError> {
        let tree = self.pane_tree.0;
        let path = self.current_pane_path@;
        match command {
            Command::Navigate(_, _) => if tree.leaf_position(path) is None {
                Some(PathError::PathNotFound)
            } else {
                None
            },
            Command::Split(_) => match tree.node_at(path) {
                None => Some(PathError::PathBeyondLeaf),
                Some(BTreeNode::Branch { .. }) => Some(PathError::CannotSplitBranch),
                Some(BTreeNode::Leaf(_)) => None,
            },
            Command::Remove => match tree.node_at(path) {
                None => Some(PathError::PathBeyondLeaf),
                Some(BTreeNode::Branch { .. }) => Some(PathError::CannotRemoveBranch),
                Some(BTreeNode::Leaf(_)) => None,
            },
            Command::Resize(_, _) => if path.len() > 0 && tree.node_at(path.drop_last()) is None {
                Some(PathError::PathBeyondLeaf)
            } else {
                None
            },
            Command::CycleImage(_) => match tree.node_at(path) {
                None => Some(PathError::PathBeyondLeaf),
                Some(BTreeNode::Branch { .. }) => Some(PathError::CannotCycleImageOnBranch),
                Some(BTreeNode::Leaf(_)) => None,
            },
            _ => None,
        }
    }

    /// While the focus is on a pane, every command but a remove is carried
    /// out and leaves the focus on a pane.
    pub proof fn lemma_focus_stays(self, command: Command)
        requires
            self.focused(),
            !(command is Remove),
        ensures
            self.refusal(command) is None,
            forall|next: App| #[trigger] self.leads_to(command, next) ==> next.focused(),
    {
        let tree = self.pane_tree.0;
        let path = self.current_pane_path@;
        if path.len() > 0 {
            assert(path.subrange(0, path.len() - 1) =~= path.drop_last());
            lemma_prefix_leads_somewhere(tree, path.drop_last(), path);
        }
        assert forall|next: App| #[trigger] self.leads_to(command, next) implies next.focused() by {
            match command {
                Command::Split(direction) => {
                    let made = split_showing(tree.node_at(path).unwrap()->Leaf_0, direction);
                    lemma_node_at_replaced(tree, path, made);
                    lemma_node_at_push(next.pane_tree.0, path, false);
                },
                Command::Resize(axis, delta) => {
                    lemma_resized_same_shape(tree, path, axis, delta);
                    lemma_shape_decides_position(next.pane_tree.0, tree, path);
                },
                Command::CycleImage(_) => {
                    lemma_node_at_replaced(tree, path, next.pane_tree.0.node_at(path).unwrap());
                    let shown = tree.node_at(path).unwrap()->Leaf_0;
                    lemma_node_at_replaced(
                        tree,
                        path,
                        leaf_showing(
                            cycled(
                                shown.image_id as int,
                                self.image_count() as int,
                                command->CycleImage_0,
                            ) as usize,
                        ),
                    );
                },
                _ => {},
            }
        }
    }

    /// The state at the start: the table is shown, the first row is
    /// selected, and one pane shows the first image and has the focus.
    pub fn new(data: CsvData, imagefile_basenames: Vec<String>) -> (app: Self)
        ensures
            !app.running,
            app.current_tab == Tab::Data,
            app.col_headers == data.headers,
            app.table_rows == data.rows,
            app.imagedir_paths == data.row_dirs,
            app.imagefile_basenames == imagefile_basenames,
            app.current_datarow_index == 0,
            app.pane_tree.0 == leaf_showing(0),
            app.current_pane_path@ == Seq::<bool>::empty(),
            app.focused(),
            app.pane_tree.well_formed(),
    {
        App {
            running: false,
            col_headers: data.headers,
            table_rows: data.rows,
            imagedir_paths: data.row_dirs,
            imagefile_basenames,
            current_tab: Tab::Data,
            current_datarow_index: 0,
            pane_tree: Pane::new_leaf(),
            current_pane_path: Vec::new(),
        }
    }

    /// Ends the program after the current key press.
    pub fn quit(&mut self)
        ensures
            old(self).leads_to(Command::Quit, *final(self)),
    {
        self.running = false;
    }

    /// Shows the other tab.
    pub fn next_tab(&mut self)
        ensures
            old(self).leads_to(Command::NextTab, *final(self)),
    {
        self.current_tab = self.current_tab.next();
    }

    /// Selects the row below, if there is one.
    pub fn next_row(&mut self)
        requires
            old(self).row_count() > 0,
        ensures
            old(self).leads_to(Command::RowDown, *final(self)),
    {
        self.current_datarow_index = step_index(
            self.current_datarow_index,
            self.table_rows.len(),
            AdjustDirection::Next,
        );
    }

    /// Selects the row above, if there is one.
    pub fn prev_row(&mut self)
        ensures
            old(self).leads_to(Command::RowUp, *final(self)),
    {
        self.current_datarow_index = step_index(
            self.current_datarow_index,
            self.table_rows.len(),
            AdjustDirection::Previous,
        );
    }

    /// The name of the image at position `index`, if there is one.
    pub fn get_basename(&self, index: usize) -> (name: Option<String>)
        ensures
            match name {
                Some(name) => index < self.image_count() && name == self.imagefile_basenames@[index as int],
                None => index >= self.image_count(),
            },
    {
        if index < self.imagefile_basenames.len() {
            Some(self.imagefile_basenames[index].clone())
        } else {
            None
        }
    }

    /// The directory of the images of the row at position `index`.
    pub fn get_imgdir_path(&self, index: usize) -> (dir: &String)
        requires
            index < self.imagedir_paths@.len(),
        ensures
            *dir == self.imagedir_paths@[index as int],
    {
        &self.imagedir_paths[index]
    }

    /// Where the image at position `image_index` of the row at position
    /// `row_index` is found: the directory of the row, and in it the name of
    /// the image. `None` where there is no image at that position.
    pub fn get_fullimgpath(&self, image_index: usize, row_index: usize) -> (place: Option<
        (String, String),
    >)
        requires
            row_index < self.imagedir_paths@.len(),
        ensures
            match place {
                Some((dir, name)) => image_index < self.image_count() && dir
                    == self.imagedir_paths@[row_index as int] && name
                    == self.imagefile_basenames@[image_index as int],
                None => image_index >= self.image_count(),
            },
    {
        match self.get_basename(image_index) {
            Some(name) => Some((self.get_imgdir_path(row_index).clone(), name)),
            None => None,
        }
    }

    /// The number of panes.
    pub fn get_total_imgpanes(&self) -> (count: usize)
        ensures
            count == self.pane_tree.0.leaf_paths().len(),
    {
        self.pane_tree.get_total_imgpanes()
    }

    /// Moves the focus to the pane after or before the one that has it, the
    /// panes taken as a ring. Where the focus is on no pane the result is
    /// `PathNotFound` and nothing changes.
    pub fn cycle_imagepane(&mut self, direction: AdjustDirection) -> (result: Result<(), PathError>)
        ensures
            match result {
                Ok(()) => {
                    &&& old(self).same_but_panes(*final(self))
                    &&& final(self).pane_tree.0 == old(self).pane_tree.0
                    &&& old(self).pane_tree.0.leaf_position(old(self).current_pane_path@) matches Some(
                        i,
                    )
                    &&& final(self).current_pane_path@ == old(self).pane_tree.0.leaf_paths()[cycled(
                        i,
                        old(self).pane_tree.0.leaf_paths().len() as int,
                        direction,
                    )]
                },
                Err(e) => e == PathError::PathNotFound && old(self).pane_tree.0.leaf_position(
                    old(self).current_pane_path@,
                ) is None && *final(self) == *old(self),
            },
    {
        let next = self.pane_tree.cycle(self.current_pane_path.as_slice(), direction)?;
        self.current_pane_path = next;
        Ok(())
    }

    /// Shows the next image in the pane that has the focus; refuses as
    /// `on_key_event` does.
    pub fn next_img(&mut self) -> (result: Result<(), PathError>)
        requires
            old(self).image_count() > 0,
        ensures
            match result {
                Ok(()) => old(self).refusal(Command::CycleImage(AdjustDirection::Next)) is None
                    && old(self).leads_to(
                    Command::CycleImage(AdjustDirection::Next),
                    *final(self),
                ),
                Err(e) => old(self).refusal(Command::CycleImage(AdjustDirection::Next)) == Some(e)
                    && *final(self) == *old(self),
            },
    {
        self.apply(Command::CycleImage(AdjustDirection::Next))
    }

    /// Cuts the pane that has the focus in `direction` and moves the focus
    /// to the second of the two new panes; refuses as `on_key_event` does.
    pub fn split_imgpane(&mut self, direction: SplitDirection) -> (result: Result<(), PathError>)
        ensures
            match result {
                Ok(()) => old(self).refusal(Command::Split(direction)) is None && old(
                    self,
                ).leads_to(Command::Split(direction), *final(self)),
                Err(e) => old(self).refusal(Command::Split(direction)) == Some(e) && *final(self)
                    == *old(self),
            },
    {
        self.apply(Command::Split(direction))
    }

    /// Moves the nearest divider in `direction` above the pane that has the
    /// focus by `delta`; refuses as `on_key_event` does.
    pub fn resize_imgpane(&mut self, delta: i8, direction: SplitDirection) -> (result: Result<
        (),
        PathError,
    >)
        ensures
            match result {
                Ok(()) => old(self).refusal(Command::Resize(direction, delta)) is None && old(
                    self,
                ).leads_to(Command::Resize(direction, delta), *final(self)),
                Err(e) => old(self).refusal(Command::Resize(direction, delta)) == Some(e)
                    && *final(self) == *old(self),
            },
    {
        self.apply(Command::Resize(direction, delta))
    }

    /// Removes the pane that has the focus; refuses as `on_key_event` does.
    pub fn remove_imgpane(&mut self) -> (result: Result<(), PathError>)
        ensures
            match result {
                Ok(()) => old(self).refusal(Command::Remove) is None && old(self).leads_to(
                    Command::Remove,
                    *final(self),
                ),
                Err(e) => old(self).refusal(Command::Remove) == Some(e) && *final(self) == *old(
                    self,
                ),
            },
    {
        self.apply(Command::Remove)
    }

    /// Carries out what `key` asks for. A key that works on the panes is
    /// refused with the error of that work where the focus is not on a pane
    /// it can work on, and the state is then left as it was.
    pub fn on_key_event(&mut self, key: KeyPress) -> (result: Result<(), PathError>)
        requires
            old(self).accepts(command_of(key, old(self).current_tab)),
        ensures
            match result {
                Ok(()) => old(self).refusal(command_of(key, old(self).current_tab)) is None && old(
                    self,
                ).leads_to(command_of(key, old(self).current_tab), *final(self)),
                Err(e) => old(self).refusal(command_of(key, old(self).current_tab)) == Some(e)
                    && *final(self) == *old(self),
            },
            old(self).pane_tree.well_formed() ==> final(self).pane_tree.well_formed(),
            old(self).focused() && !(command_of(key, old(self).current_tab) is Remove) ==> result
                is Ok && final(self).focused(),
    {
        let command = command_for(key, self.current_tab);
        self.apply(command)
    }

    /// Carries out `command`; refuses as `on_key_event` does.
    pub fn apply(&mut self, command: Command) -> (result: Result<(), PathError>)
        requires
            old(self).accepts(command),
        ensures
            match result {
                Ok(()) => old(self).refusal(command) is None && old(self).leads_to(
                    command,
                    *final(self),
                ),
                Err(e) => old(self).refusal(command) == Some(e) && *final(self) == *old(self),
            },
            old(self).pane_tree.well_formed() ==> final(self).pane_tree.well_formed(),
            old(self).focused() && !(command is Remove) ==> result is Ok && final(self).focused(),
    {
        let result = self.carry_out(command);
        proof {
            if old(self).focused() && !(command is Remove) {
                old(self).lemma_focus_stays(command);
                assert(old(self).leads_to(command, *self));
            }
        }
        result
    }

    fn carry_out(&mut self, command: Command) -> (result: Result<(), PathError>)
        requires
            old(self).accepts(command),
        ensures
            match result {
                Ok(()) => old(self).refusal(command) is None && old(self).leads_to(
                    command,
                    *final(self),
                ),
                Err(e) => old(self).refusal(command) == Some(e) && *final(self) == *old(self),
            },
            old(self).pane_tree.well_formed() ==> final(self).pane_tree.well_formed(),
    {
        match command {
            Command::Quit => self.quit(),
            Command::NextTab => self.next_tab(),
            Command::RowUp => self.prev_row(),
            Command::RowDown => self.next_row(),
            Command::Navigate(axis, direction) => {
                let next = self.pane_tree.navigate(self.current_pane_path.as_slice(), axis, direction)?;
                self.current_pane_path = next;
            },
            Command::Split(direction) => {
                let next = self.pane_tree.split_leaf_at(self.current_pane_path.as_slice(), direction)?;
                self.current_pane_path = next;
            },
            Command::Remove => {
                let next = self.pane_tree.remove_leaf_at(self.current_pane_path.as_slice())?;
                self.current_pane_path = next;
            },
            Command::Resize(axis, delta) => {
                self.pane_tree.resize_leaf_at(self.current_pane_path.as_slice(), axis, delta)?;
            },
            Command::CycleImage(direction) => {
                self.pane_tree.cycle_image(
                    self.current_pane_path.as_slice(),
                    self.imagefile_basenames.len(),
                    direction,
                )?;
            },
            Command::Nothing => {},
        }
        Ok(())
    }
}

} // verus!

use vstd::prelude::*;

verus! {

/// The two views of the program: the table of rows and the images of one row.
#[derive(Clone, Copy, Debug, PartialEq, Eq, Structural)]
pub enum Tab {
    Data,
    Image,
}

impl Default for Tab {
    fn default() -> (tab: Self)
        ensures
            tab == Tab::Data,
    {
        Tab::Data
    }
}

impl Tab {
    /// The other tab.
    pub open spec fn other(self) -> Tab {
        match self {
            Tab::Data => Tab::Image,
            Tab::Image => Tab::Data,
        }
    }

    /// The position of the tab in `titles`.
    pub open spec fn index(self) -> int {
        match self {
            Tab::Data => 0,
            Tab::Image => 1,
        }
    }

    /// The tab that follows this one; after the last comes the first.
    pub fn cycle(&self) -> (next: Self)
        ensures
            next == self.other(),
    {
        match self {
            Tab::Data => Tab::Image,
            Tab::Image => Tab::Data,
        }
    }

    /// The tab that follows this one; after the last comes the first.
    pub fn next(&self) -> (next: Self)
        ensures
            next == self.other(),
    {
        self.cycle()
    }

    /// The titles of the tabs, in the order of `to_index`.
    pub fn titles() -> (titles: Vec<&'static str>)
        ensures
            titles@.len() == 2,
            titles@[Tab::Data.index()]@ == "Data"@,
            titles@[Tab::Image.index()]@ == "Image"@,
    {
        let mut titles: Vec<&'static str> = Vec::new();
        titles.push("Data");
        titles.push("Image");
        titles
    }

    /// The position of the tab in `titles`.
    pub fn to_index(&self) -> (index: usize)
        ensures
            index == self.index(),
    {
        match self {
            Tab::Data => 0,
            Tab::Image => 1,
        }
    }
}

} // verus!

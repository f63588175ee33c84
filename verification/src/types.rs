//! The objects of the browsable hierarchy and the documents they are rendered into.

use vstd::prelude::*;

verus! {

/// The namespace of an envelope.
pub const XMLNS_ENVELOPE: &'static str = "http://schemas.xmlsoap.org/soap/envelope/";

/// The encoding style of an envelope.
pub const ENVELOPE_ENCODING_STYLE: &'static str = "http://schemas.xmlsoap.org/soap/encoding/";

/// The namespace of the content directory.
pub const XMLNS_CONTENT_DIRECTORY: &'static str = "urn:schemas-upnp-org:service:ContentDirectory:1";

/// The namespace of titles.
pub const XMLNS_DC: &'static str = "http://purl.org/dc/elements/1.1/";

/// The namespace of classes.
pub const XMLNS_UPNP: &'static str = "urn:schemas-upnp-org:metadata-1-0/upnp/";

/// The namespace of a listing document.
pub const XMLNS_DIDL: &'static str = "urn:schemas-upnp-org:metadata-1-0/DIDL-Lite/";

/// The object class of a folder.
pub const CLASS_FOLDER: &'static str = "object.container.storageFolder";

/// The object class of a video.
pub const CLASS_VIDEO: &'static str = "object.item.videoItem";

/// A response envelope.
#[derive(PartialEq, Debug, Clone)]
pub struct Envelope {
    pub xmlns: String,
    pub encoding_style: String,
    pub body: Body,
}

/// The body of an envelope. `xmlns` is the namespace of the response in it, which the
/// body declares under the prefix `u`.
#[derive(PartialEq, Debug, Clone)]
pub struct Body {
    pub browse_response: BrowseResponse,
    pub xmlns: String,
}

/// The answer to a browse request: the listing as text, and three counters.
#[derive(PartialEq, Debug, Clone)]
pub struct BrowseResponse {
    pub result: String,
    pub number_returned: u64,
    pub total_matches: u64,
    pub update_id: u64,
}

/// A listing document.
#[derive(PartialEq, Debug, Clone)]
pub struct DidlLite {
    pub xmlns_dc: String,
    pub xmlns_upnp: String,
    pub xmlns: String,
    pub list_items: Vec<ListItem>,
}

/// An object of the hierarchy: a folder that can be browsed, or a media file.
#[derive(PartialEq, Debug, Clone)]
pub enum ListItem {
    Container(Container),
    Item(Item),
}

/// An object as the catalog keeps it: with its id and, for a folder that stands for a
/// directory, the path of that directory.
#[derive(PartialEq, Debug, Clone)]
pub struct ListItemWrapper {
    pub list_item: ListItem,
    pub id: u64,
    pub dir: Option<String>,
}

/// A folder.
#[derive(PartialEq, Debug, Clone)]
pub struct Container {
    pub id: u64,
    pub parent_id: u64,
    pub title: String,
    pub class: String,
}

/// A media file.
#[derive(PartialEq, Debug, Clone)]
pub struct Item {
    pub id: u64,
    pub parent_id: u64,
    pub title: String,
    pub class: String,
    pub res: Res,
}

/// Where and how a media file can be fetched.
#[derive(PartialEq, Debug, Clone)]
pub struct Res {
    pub protocol_info: String,
    pub content: String,
}

/// A resource, with its texts.
pub struct ResView {
    pub protocol_info: Seq<char>,
    pub content: Seq<char>,
}

/// A folder, with its texts.
pub struct ContainerView {
    pub id: u64,
    pub parent_id: u64,
    pub title: Seq<char>,
    pub class: Seq<char>,
}

/// A media file, with its texts.
pub struct ItemView {
    pub id: u64,
    pub parent_id: u64,
    pub title: Seq<char>,
    pub class: Seq<char>,
    pub res: ResView,
}

/// An object, with its texts.
pub enum ListItemView {
    Container(ContainerView),
    Item(ItemView),
}

/// An object as the catalog keeps it, with its texts.
pub struct EntryView {
    pub list_item: ListItemView,
    pub id: u64,
    pub dir: Option<Seq<char>>,
}

impl View for Res {
    type V = ResView;

    open spec fn view(&self) -> ResView {
        ResView { protocol_info: self.protocol_info@, content: self.content@ }
    }
}

impl View for Container {
    type V = ContainerView;

    open spec fn view(&self) -> ContainerView {
        ContainerView {
            id: self.id,
            parent_id: self.parent_id,
            title: self.title@,
            class: self.class@,
        }
    }
}

impl View for Item {
    type V = ItemView;

    open spec fn view(&self) -> ItemView {
        ItemView {
            id: self.id,
            parent_id: self.parent_id,
            title: self.title@,
            class: self.class@,
            res: self.res@,
        }
    }
}

impl View for ListItem {
    type V = ListItemView;

    open spec fn view(&self) -> ListItemView {
        match self {
            ListItem::Container(container) => ListItemView::Container(container@),
            ListItem::Item(item) => ListItemView::Item(item@),
        }
    }
}

impl View for ListItemWrapper {
    type V = EntryView;

    open spec fn view(&self) -> EntryView {
        EntryView {
            list_item: self.list_item@,
            id: self.id,
            dir: match self.dir {
                Some(dir) => Some(dir@),
                None => None,
            },
        }
    }
}

impl ListItemView {
    /// The id that the object carries.
    pub open spec fn id(self) -> u64 {
        match self {
            ListItemView::Container(container) => container.id,
            ListItemView::Item(item) => item.id,
        }
    }

    /// The id of the folder that the object is listed in.
    pub open spec fn parent_id(self) -> u64 {
        match self {
            ListItemView::Container(container) => container.parent_id,
            ListItemView::Item(item) => item.parent_id,
        }
    }

    /// The title of the object.
    pub open spec fn title(self) -> Seq<char> {
        match self {
            ListItemView::Container(container) => container.title,
            ListItemView::Item(item) => item.title,
        }
    }
}

/// The views of a sequence of objects.
pub open spec fn item_views(items: Seq<ListItem>) -> Seq<ListItemView> {
    items.map_values(|item: ListItem| item@)
}

/// The views of a sequence of catalog entries.
pub open spec fn entry_views(entries: Seq<ListItemWrapper>) -> Seq<EntryView> {
    entries.map_values(|entry: ListItemWrapper| entry@)
}

impl Res {
    /// A copy of the resource.
    pub fn duplicate(&self) -> (copy: Res)
        ensures
            copy@ == self@,
    {
        Res { protocol_info: self.protocol_info.clone(), content: self.content.clone() }
    }
}

impl Container {
    /// A copy of the folder.
    pub fn duplicate(&self) -> (copy: Container)
        ensures
            copy@ == self@,
    {
        Container {
            id: self.id,
            parent_id: self.parent_id,
            title: self.title.clone(),
            class: self.class.clone(),
        }
    }
}

impl Item {
    /// A copy of the media file.
    pub fn duplicate(&self) -> (copy: Item)
        ensures
            copy@ == self@,
    {
        Item {
            id: self.id,
            parent_id: self.parent_id,
            title: self.title.clone(),
            class: self.class.clone(),
            res: self.res.duplicate(),
        }
    }
}

impl ListItem {
    /// A copy of the object.
    pub fn duplicate(&self) -> (copy: ListItem)
        ensures
            copy@ == self@,
    {
        match self {
            ListItem::Container(container) => ListItem::Container(container.duplicate()),
            ListItem::Item(item) => ListItem::Item(item.duplicate()),
        }
    }

    /// The id that the object carries.
    pub fn id(&self) -> (id: u64)
        ensures
            id == self@.id(),
    {
        match self {
            ListItem::Container(container) => container.id,
            ListItem::Item(item) => item.id,
        }
    }
}

impl ListItemWrapper {
    /// A copy of the entry.
    pub fn duplicate(&self) -> (copy: ListItemWrapper)
        ensures
            copy@ == self@,
    {
        ListItemWrapper {
            list_item: self.list_item.duplicate(),
            id: self.id,
            dir: match &self.dir {
                Some(dir) => Some(dir.clone()),
                None => None,
            },
        }
    }
}

} // verus!

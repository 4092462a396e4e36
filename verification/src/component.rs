use vstd::prelude::*;
use crate::text::{quoted, quote_text, join3};

verus! {

/// Unique identifier of a GUI component.
#[derive(Debug, Clone)]
pub struct ComponentId(pub String);

impl ComponentId {
    /// Builds an identifier from the given text.
    pub fn new(id: String) -> (r: Self)
        ensures
            r.0@ == id@,
    {
        ComponentId(id)
    }

    /// A fresh random identifier: the text of a version-4 UUID.
    pub fn generate() -> (r: Self)
        ensures
            is_uuid_v4_text(r.0@),
    {
        ComponentId(random_uuid_text())
    }

    /// A copy of this identifier with the same text.
    pub fn duplicate(&self) -> (r: Self)
        ensures
            r.0@ == self.0@,
    {
        ComponentId(self.0.clone())
    }

    /// Whether two identifiers hold the same text.
    pub fn same_as(&self, other: &ComponentId) -> (r: bool)
        ensures
            r == (self.0@ == other.0@),
    {
        self.0 == other.0
    }
}

/// Error kinds raised by components.
#[derive(Debug)]
pub enum ComponentError {
    InitializationFailed(String),
    RenderError(String),
    UpdateError(String),
    ConfigError(String),
    StateError(String),
    CommunicationError(String),
    ResourceError(String),
}


impl ComponentError {
    /// Text shown for this error: a fixed prefix per kind, then the detail.
    pub fn message(&self) -> (r: String)
        ensures
            r@ == self.spec_message(),
    {
        let (prefix, detail) = match self {
            ComponentError::InitializationFailed(d) => ("组件初始化失败: ", d),
            ComponentError::RenderError(d) => ("组件渲染错误: ", d),
            ComponentError::UpdateError(d) => ("组件更新错误: ", d),
            ComponentError::ConfigError(d) => ("配置错误: ", d),
            ComponentError::StateError(d) => ("状态错误: ", d),
            ComponentError::CommunicationError(d) => ("通信错误: ", d),
            ComponentError::ResourceError(d) => ("资源错误: ", d),
        };
        let mut s = String::from_str(prefix);
        s.append(detail.as_str());
        s
    }

    pub open spec fn spec_message(&self) -> Seq<char> {
        match self {
            ComponentError::InitializationFailed(d) => "组件初始化失败: "@ + d@,
            ComponentError::RenderError(d) => "组件渲染错误: "@ + d@,
            ComponentError::UpdateError(d) => "组件更新错误: "@ + d@,
            ComponentError::ConfigError(d) => "配置错误: "@ + d@,
            ComponentError::StateError(d) => "状态错误: "@ + d@,
            ComponentError::CommunicationError(d) => "通信错误: "@ + d@,
            ComponentError::ResourceError(d) => "资源错误: "@ + d@,
        }
    }
}

/// A lower-case hexadecimal digit.
pub open spec fn is_hex_lower(c: char) -> bool {
    ('0' <= c <= '9') || ('a' <= c <= 'f')
}

/// Text of a version-4 UUID in hyphenated form: 36 characters, hyphens at positions
/// 8, 13, 18 and 23, the version digit `4` at position 14, lower-case hex elsewhere.
pub open spec fn is_uuid_v4_text(s: Seq<char>) -> bool {
    &&& s.len() == 36
    &&& forall|i: int| 0 <= i < 36 ==> (if i == 8 || i == 13 || i == 18 || i == 23 {
        #[trigger] s[i] == '-'
    } else {
        is_hex_lower(s[i])
    })
    &&& s[14] == '4'
}

/// A random identifier from `uuid::Uuid::new_v4()`, written with `to_string()`, which
/// gives the hyphenated lower-case form with the version digit 4. Which identifier
/// comes out is left to chance.
#[verifier::external_body]
pub(crate) fn random_uuid_text() -> (s: String)
    ensures
        is_uuid_v4_text(s@),
{
    uuid::Uuid::new_v4().to_string()
}

/// Kind of a GUI component.
#[derive(Debug, Clone, PartialEq, Eq, Hash)]
pub enum ComponentType {
    OrderBook,
    Chart,
    StatusBar,
    DebugWindow,
    Toolbar,
    Sidebar,
    PopupWindow,
    Custom(String),
}

/// A component kind as a value: the variant, and the text of a custom kind.
pub open spec fn type_key(t: ComponentType) -> (int, Seq<char>) {
    match t {
        ComponentType::OrderBook => (0, Seq::empty()),
        ComponentType::Chart => (1, Seq::empty()),
        ComponentType::StatusBar => (2, Seq::empty()),
        ComponentType::DebugWindow => (3, Seq::empty()),
        ComponentType::Toolbar => (4, Seq::empty()),
        ComponentType::Sidebar => (5, Seq::empty()),
        ComponentType::PopupWindow => (6, Seq::empty()),
        ComponentType::Custom(s) => (7, s@),
    }
}

/// How `{:?}` writes a component kind.
pub open spec fn type_debug(t: ComponentType) -> Seq<char> {
    match t {
        ComponentType::OrderBook => "OrderBook"@,
        ComponentType::Chart => "Chart"@,
        ComponentType::StatusBar => "StatusBar"@,
        ComponentType::DebugWindow => "DebugWindow"@,
        ComponentType::Toolbar => "Toolbar"@,
        ComponentType::Sidebar => "Sidebar"@,
        ComponentType::PopupWindow => "PopupWindow"@,
        ComponentType::Custom(s) => "Custom("@ + quoted(s@) + ")"@,
    }
}

impl ComponentType {
    /// Whether two kinds are the same.
    pub fn same_as(&self, other: &ComponentType) -> (r: bool)
        ensures
            r == (type_key(*self) == type_key(*other)),
    {
        match (self, other) {
            (ComponentType::OrderBook, ComponentType::OrderBook) => true,
            (ComponentType::Chart, ComponentType::Chart) => true,
            (ComponentType::StatusBar, ComponentType::StatusBar) => true,
            (ComponentType::DebugWindow, ComponentType::DebugWindow) => true,
            (ComponentType::Toolbar, ComponentType::Toolbar) => true,
            (ComponentType::Sidebar, ComponentType::Sidebar) => true,
            (ComponentType::PopupWindow, ComponentType::PopupWindow) => true,
            (ComponentType::Custom(a), ComponentType::Custom(b)) => *a == *b,
            _ => false,
        }
    }

    /// A copy of this kind.
    pub fn duplicate(&self) -> (r: Self)
        ensures
            type_key(r) == type_key(*self),
            type_debug(r) == type_debug(*self),
    {
        match self {
            ComponentType::OrderBook => ComponentType::OrderBook,
            ComponentType::Chart => ComponentType::Chart,
            ComponentType::StatusBar => ComponentType::StatusBar,
            ComponentType::DebugWindow => ComponentType::DebugWindow,
            ComponentType::Toolbar => ComponentType::Toolbar,
            ComponentType::Sidebar => ComponentType::Sidebar,
            ComponentType::PopupWindow => ComponentType::PopupWindow,
            ComponentType::Custom(s) => ComponentType::Custom(s.clone()),
        }
    }

    /// The kind as `{:?}` writes it.
    pub fn debug_text(&self) -> (r: String)
        ensures
            r@ == type_debug(*self),
    {
        match self {
            ComponentType::OrderBook => String::from_str("OrderBook"),
            ComponentType::Chart => String::from_str("Chart"),
            ComponentType::StatusBar => String::from_str("StatusBar"),
            ComponentType::DebugWindow => String::from_str("DebugWindow"),
            ComponentType::Toolbar => String::from_str("Toolbar"),
            ComponentType::Sidebar => String::from_str("Sidebar"),
            ComponentType::PopupWindow => String::from_str("PopupWindow"),
            ComponentType::Custom(s) => {
                let q = quote_text(s.as_str());
                join3("Custom(", q.as_str(), ")")
            },
        }
    }
}

/// Runtime state of a component.
#[derive(Debug, Clone, PartialEq, Eq)]
pub enum ComponentState {
    Uninitialized,
    Initializing,
    Active,
    Paused,
    Hidden,
    Error(String),
    Destroying,
    Destroyed,
}

/// Optional abilities a component offers.
#[derive(Debug, Clone, Copy, PartialEq, Eq, Structural)]
pub struct ComponentCapabilities {
    pub draggable: bool,
    pub resizable: bool,
    pub minimizable: bool,
    pub maximizable: bool,
    pub closable: bool,
    pub persistable: bool,
    pub keyboard_input: bool,
    pub mouse_input: bool,
    pub threaded_update: bool,
}

impl Default for ComponentCapabilities {
    /// Keyboard and mouse input only.
    fn default() -> (r: Self)
        ensures
            r == (ComponentCapabilities {
                draggable: false,
                resizable: false,
                minimizable: false,
                maximizable: false,
                closable: false,
                persistable: false,
                keyboard_input: true,
                mouse_input: true,
                threaded_update: false,
            }),
    {
        ComponentCapabilities {
            draggable: false,
            resizable: false,
            minimizable: false,
            maximizable: false,
            closable: false,
            persistable: false,
            keyboard_input: true,
            mouse_input: true,
            threaded_update: false,
        }
    }
}

} // verus!

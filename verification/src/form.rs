//! The calculator's input-form state and its verified transitions. The
//! desktop shell owns the widgets, parses the two text fields and renders
//! the output; what a message does to the form state is decided here.

use vstd::prelude::*;

verus! {

/// The colour theme the form is shown in.
#[derive(Clone, Copy, PartialEq, Eq, Structural, Debug)]
pub enum ThemeType {
    Light,
    Dark,
}

/// A toggleable option of the calculator.
#[derive(Clone, Copy, PartialEq, Eq, Structural, Debug)]
pub enum Opt {
    /// Whether each sub-network must reserve its network and broadcast
    /// addresses on top of the requested host count.
    IncludeFirstLastAddress(bool),
}

/// The calculator's option switches.
#[derive(Clone, Copy, PartialEq, Eq, Structural, Debug)]
pub struct Opts {
    pub include_first_last_address: bool,
}

impl Default for Opts {
    /// All options start switched off.
    fn default() -> (r: Opts)
        ensures
            r.include_first_last_address == false,
    {
        Opts { include_first_last_address: false }
    }
}

/// An event of the input form.
#[derive(Clone, Debug)]
pub enum Message {
    CIDRInputChanged(String),
    SizesInputChanged(String),
    Submit,
    ThemeChanged(ThemeType),
    OptsChanged(Opt),
}

/// The state of the calculator's input form: the chosen theme, the two text
/// fields as the user typed them, and the option switches.
pub struct Calculator {
    pub theme: ThemeType,
    pub net_input: String,
    pub sizes_input: String,
    pub opts: Opts,
}

impl Calculator {
    /// A fresh form: dark theme, empty inputs, all options off.
    pub fn new() -> (r: Calculator)
        ensures
            r.theme == ThemeType::Dark,
            r.net_input@ == Seq::<char>::empty(),
            r.sizes_input@ == Seq::<char>::empty(),
            r.opts.include_first_last_address == false,
    {
        Calculator {
            theme: ThemeType::Dark,
            net_input: String::new(),
            sizes_input: String::new(),
            opts: Opts::default(),
        }
    }

    /// The window title.
    pub fn title(&self) -> (r: String)
        ensures
            r@ == "VLSM Calculator"@,
    {
        "VLSM Calculator".to_string()
    }

    /// Applies one message to the form state: an edited text field replaces
    /// the stored text, a theme choice replaces the theme, a toggled option
    /// replaces the switch, and a submit changes nothing (the caller
    /// recomputes the output from the updated inputs after every message).
    pub fn update(&mut self, message: Message)
        ensures
            (match message {
                Message::CIDRInputChanged(inp) => *final(self) == (Calculator {
                    net_input: inp,
                    ..*old(self)
                }),
                Message::SizesInputChanged(inp) => *final(self) == (Calculator {
                    sizes_input: inp,
                    ..*old(self)
                }),
                Message::ThemeChanged(theme) => *final(self) == (Calculator {
                    theme,
                    ..*old(self)
                }),
                Message::OptsChanged(opt) => (match opt {
                    Opt::IncludeFirstLastAddress(b) => *final(self) == (Calculator {
                        opts: Opts { include_first_last_address: b },
                        ..*old(self)
                    }),
                }),
                Message::Submit => *final(self) == *old(self),
            }),
    {
        match message {
            Message::CIDRInputChanged(inp) => {
                self.net_input = inp;
            },
            Message::SizesInputChanged(inp) => {
                self.sizes_input = inp;
            },
            Message::ThemeChanged(theme_type) => {
                self.theme = theme_type;
            },
            Message::OptsChanged(Opt::IncludeFirstLastAddress(b)) => {
                self.opts = Opts { include_first_last_address: b };
            },
            Message::Submit => {},
        }
    }

    /// The currently chosen theme.
    pub fn theme(&self) -> (r: ThemeType)
        ensures
            r == self.theme,
    {
        self.theme
    }
}

} // verus!


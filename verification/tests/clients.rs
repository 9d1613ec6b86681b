use scalargrad::assistant::AsstId;
use scalargrad::assistant::CreateConfig;
use scalargrad::assistant::FileId;
use scalargrad::assistant::ThreadId;
use scalargrad::assistant::VectorStoresId;
use scalargrad::buddy::Conv;
use scalargrad::command::Cmd;
use scalargrad::conversation::Conversation;
use scalargrad::conversation::Message;
use scalargrad::currency::Currency;
use scalargrad::files::XFile;

#[test]
fn identifiers_round_trip() {
    assert_eq!(AsstId::new(String::from("asst_1")).as_str(), "asst_1");
    assert_eq!(ThreadId::new(String::from("thread_2")).as_str(), "thread_2");
    assert_eq!(FileId::new(String::from("file_3")).as_str(), "file_3");
    assert_eq!(VectorStoresId::new(String::from("vs_4")).as_str(), "vs_4");
}

#[test]
fn create_config_holds_fields() {
    let config = CreateConfig {
        name: String::from("buddy"),
        model: String::from("gpt-4o-mini"),
    };
    assert_eq!(config.name, "buddy");
    assert_eq!(config.model, "gpt-4o-mini");
}

#[test]
fn conv_keeps_its_thread() {
    let conv = Conv::new(ThreadId::new(String::from("thread_9")));
    assert_eq!(conv.thread_id().as_str(), "thread_9");
}

#[test]
fn conversation_starts_empty() {
    assert_eq!(Conversation::new().messages.len(), 0);
    assert_eq!(Conversation::default().messages.len(), 0);
    let mut conversation = Conversation::new();
    conversation.messages.push(Message {
        is_user: true,
        text: String::from("hello"),
    });
    assert_eq!(conversation.messages.len(), 1);
    assert!(conversation.messages[0].is_user);
    assert_eq!(conversation.messages[0].text, "hello");
}

#[test]
fn currency_codes() {
    assert_eq!(Currency::Uah.as_str(), "UAH");
    assert_eq!(Currency::Usd.as_str(), "USD");
    assert_eq!(Currency::Eur.as_str(), "EUR");
}

#[test]
fn commands_parse() {
    assert_eq!(Cmd::from_input(String::from("/q")), Cmd::Quit);
    assert_eq!(Cmd::from_input(String::from("/r")), Cmd::RefreshAll);
    assert_eq!(Cmd::from_input(String::from("/ra")), Cmd::RefreshAll);
    assert_eq!(Cmd::from_input(String::from("/ri")), Cmd::RefreshInst);
    assert_eq!(Cmd::from_input(String::from("/rf")), Cmd::RefreshFiles);
    assert_eq!(Cmd::from_input(String::from("/rc")), Cmd::RefreshConv);
    assert_eq!(
        Cmd::from_input(String::from("what is a monad?")),
        Cmd::Chat(String::from("what is a monad?"))
    );
    assert_eq!(
        Cmd::from_input(String::from("/quit")),
        Cmd::Chat(String::from("/quit"))
    );
}

struct Named(&'static str, &'static str);

impl XFile for Named {
    fn x_file_name(&self) -> &str {
        self.0
    }

    fn x_extension(&self) -> &str {
        self.1
    }
}

#[test]
fn xfile_exposes_name_and_extension() {
    let f = Named("notes.txt", "txt");
    assert_eq!(f.x_file_name(), "notes.txt");
    assert_eq!(f.x_extension(), "txt");
}
